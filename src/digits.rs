use crate::random::{random_in, shuffle};
use vstd::prelude::*;

verus! {

broadcast use vstd::seq_lib::group_to_multiset_ensures;

/// Ten to the power `n`.
pub open spec fn pow10(n: nat) -> nat
    decreases n,
{
    if n == 0 {
        1
    } else {
        10 * pow10((n - 1) as nat)
    }
}

/// The number of decimal digits of `n` (zero has one digit).
pub open spec fn digit_length(n: nat) -> nat
    decreases n,
{
    if n < 10 {
        1
    } else {
        1 + digit_length(n / 10)
    }
}

/// The largest digit-length whose numbers fit in an `i128`.
pub const MAX_DIGITS: u32 = 38;

pub proof fn lemma_pow10_positive(n: nat)
    ensures
        pow10(n) >= 1,
    decreases n,
{
    if n > 0 {
        lemma_pow10_positive((n - 1) as nat);
    }
}

pub proof fn lemma_pow10_monotone(a: nat, b: nat)
    requires
        a <= b,
    ensures
        pow10(a) <= pow10(b),
    decreases b,
{
    if a < b {
        lemma_pow10_monotone(a, (b - 1) as nat);
        lemma_pow10_positive((b - 1) as nat);
    }
}

/// Every number of at most `MAX_DIGITS` digits is an `i128`.
pub proof fn lemma_pow10_fits_i128(n: nat)
    requires
        n <= MAX_DIGITS,
    ensures
        pow10(n) <= i128::MAX,
{
    reveal_with_fuel(pow10, 39);
    assert(pow10(38) == 100000000000000000000000000000000000000nat);
    lemma_pow10_monotone(n, 38);
}

/// A number between `10^(d-1)` and `10^d - 1` has exactly `d` digits.
pub proof fn lemma_digit_length_of_bounds(n: nat, d: nat)
    requires
        1 <= d,
        pow10((d - 1) as nat) <= n < pow10(d),
    ensures
        digit_length(n) == d,
    decreases d,
{
    if d == 1 {
        assert(pow10(1) == 10) by {
            reveal_with_fuel(pow10, 2);
        }
    } else {
        let p = pow10((d - 2) as nat);
        assert(pow10((d - 1) as nat) == 10 * p);
        assert(n >= 10) by {
            lemma_pow10_positive((d - 2) as nat);
        }
        assert(p <= n / 10 < pow10((d - 1) as nat)) by (nonlinear_arith)
            requires
                10 * p <= n,
                n < 10 * pow10((d - 1) as nat),
        ;
        lemma_digit_length_of_bounds(n / 10, (d - 1) as nat);
    }
}

/// A number of at most `m` digits is below `10^m`.
pub proof fn lemma_bound_of_digit_length(n: nat, m: nat)
    requires
        1 <= m,
        digit_length(n) <= m,
    ensures
        n < pow10(m),
    decreases n,
{
    let q = pow10((m - 1) as nat);
    lemma_pow10_positive((m - 1) as nat);
    if n >= 10 {
        lemma_bound_of_digit_length(n / 10, (m - 1) as nat);
        assert(n < 10 * q) by (nonlinear_arith)
            requires
                n / 10 < q,
        ;
    }
}

/// The decimal digit of `n` at place `p`; place 0 holds the units.
pub open spec fn digit_at(n: nat, p: nat) -> nat {
    (n / pow10(p)) % 10
}

/// The number whose decimal digits, most significant first, are `ds`.
pub open spec fn value_of(ds: Seq<u32>) -> nat
    decreases ds.len(),
{
    if ds.len() == 0 {
        0
    } else {
        value_of(ds.drop_last()) * 10 + ds.last() as nat
    }
}

/// Place `p` of the number written with digits `ds` holds the `p`-th digit
/// from the end.
pub proof fn lemma_digit_at_value(ds: Seq<u32>, p: nat)
    requires
        p < ds.len(),
        forall|k: int| 0 <= k < ds.len() ==> #[trigger] ds[k] < 10,
    ensures
        digit_at(value_of(ds), p) == ds[ds.len() - 1 - p],
    decreases ds.len(),
{
    let v = value_of(ds.drop_last());
    let l = ds.last() as nat;
    let x = v * 10 + l;
    assert(x / 10 == v && x % 10 == l) by (nonlinear_arith)
        requires
            x == v * 10 + l,
            l < 10,
    ;
    if p == 0 {
        assert(pow10(0) == 1);
    } else {
        let q = pow10((p - 1) as nat);
        lemma_pow10_positive((p - 1) as nat);
        vstd::arithmetic::div_mod::lemma_div_denominator(x as int, 10, q as int);
        assert(pow10(p) == 10 * q);
        lemma_digit_at_value(ds.drop_last(), (p - 1) as nat);
    }
}

/// Swaps two items of a vector.
pub fn swap_items<T: Copy>(v: &mut Vec<T>, i: usize, j: usize)
    requires
        i < old(v).len(),
        j < old(v).len(),
    ensures
        final(v)@ == old(v)@.update(i as int, old(v)@[j as int]).update(j as int, old(v)@[i as int]),
{
    let a = v[i];
    let b = v[j];
    v.set(i, b);
    v.set(j, a);
}

/// Swapping two items keeps them distinct.
pub proof fn lemma_swap_distinct<A>(s: Seq<A>, i: int, j: int)
    requires
        0 <= i < s.len(),
        0 <= j < s.len(),
        s.no_duplicates(),
    ensures
        s.update(i, s[j]).update(j, s[i]).no_duplicates(),
{
    let t = s.update(i, s[j]).update(j, s[i]);
    assert forall|a: int, b: int| 0 <= a < t.len() && 0 <= b < t.len() && a != b implies t[a]
        != t[b] by {
        let p = if a == i { j } else if a == j { i } else { a };
        let q = if b == i { j } else if b == j { i } else { b };
        assert(t[a] == s[p]);
        assert(t[b] == s[q]);
    }
}

/// The digits `0..=9` in random order, not starting with `forbidden_start`.
pub fn shuffle_number_set(forbidden_start: u32) -> (set: Vec<u32>)
    ensures
        set.len() == 10,
        set@.no_duplicates(),
        forall|k: int| 0 <= k < 10 ==> #[trigger] set@[k] < 10,
        set@[0] != forbidden_start,
{
    let mut set: Vec<u32> = Vec::new();
    let mut n: u32 = 0;
    while n < 10
        invariant
            n <= 10,
            set.len() == n,
            forall|k: int| 0 <= k < n ==> #[trigger] set@[k] == k,
        decreases 10 - n,
    {
        set.push(n);
        n = n + 1;
    }
    assert(set@.no_duplicates());
    let ghost before = set@;
    shuffle(&mut set);
    proof {
        assert(set@.len() == set@.to_multiset().len());
        before.lemma_multiset_has_no_duplicates();
        set@.lemma_multiset_has_no_duplicates_conv();
        assert forall|k: int| 0 <= k < 10 implies #[trigger] set@[k] < 10 by {
            assert(set@.to_multiset().count(set@[k]) > 0);
            assert(before.contains(set@[k]));
        }
    }
    if set[0] == forbidden_start {
        let target = random_in(1, 10);
        let ghost pre = set@;
        swap_items(&mut set, 0, target);
        proof {
            lemma_swap_distinct(pre, 0, target as int);
            assert(pre[target as int] != pre[0]);
        }
    }
    set
}

/// A random number of exactly `digit` digits. Its digits are read off
/// shuffled runs of `0..=9`: the first run does not start with zero, and each
/// later run does not start with the digit that ended the one before.
pub fn make_number(digit: u32) -> (n: i128)
    requires
        1 <= digit <= MAX_DIGITS,
    ensures
        pow10((digit - 1) as nat) <= n < pow10(digit as nat),
        forall|p: nat| p + 1 < digit ==> #[trigger] digit_at(n as nat, p) != digit_at(n as nat, p + 1),
        digit <= 10 ==> forall|p: nat, q: nat|
            p < q < digit ==> #[trigger] digit_at(n as nat, p) != #[trigger] digit_at(n as nat, q),
{
    let mut digits = shuffle_number_set(0);
    let runs = (digit - 1) / 10;
    let mut r: u32 = 0;
    while r < runs
        invariant
            r <= runs == (digit - 1) / 10,
            digits.len() == 10 * (r + 1),
            digits@[0] != 0,
            forall|k: int| 0 <= k < digits.len() ==> #[trigger] digits@[k] < 10,
            forall|k: int| 0 <= k < digits.len() - 1 ==> #[trigger] digits@[k] != digits@[k + 1],
            digits@.take(10).no_duplicates(),
        decreases runs - r,
    {
        let last = digits[digits.len() - 1];
        let mut more = shuffle_number_set(last);
        let ghost before = digits@;
        let ghost added = more@;
        digits.append(&mut more);
        proof {
            assert(digits@ =~= before + added);
            assert(digits@.take(10) =~= before.take(10));
            assert forall|k: int| 0 <= k < digits.len() - 1 implies #[trigger] digits@[k]
                != digits@[k + 1] by {
                if k >= before.len() {
                    assert(digits@[k] == added[k - before.len()]);
                    assert(digits@[k + 1] == added[k + 1 - before.len()]);
                }
            }
        }
        r = r + 1;
    }
    assert(digits.len() >= digit) by (nonlinear_arith)
        requires
            digits.len() == 10 * (runs + 1),
            runs == (digit - 1) / 10,
            digit >= 1,
    ;
    let mut n: i128 = 0;
    let mut k: usize = 0;
    while k < digit as usize
        invariant
            k <= digit <= MAX_DIGITS,
            digit <= digits.len(),
            digits@[0] != 0,
            forall|i: int| 0 <= i < digits.len() ==> #[trigger] digits@[i] < 10,
            k == 0 ==> n == 0,
            k >= 1 ==> pow10((k - 1) as nat) <= n < pow10(k as nat),
            n == value_of(digits@.take(k as int)),
        decreases digit - k,
    {
        let d = digits[k] as i128;
        proof {
            assert(digits@.take(k + 1).drop_last() =~= digits@.take(k as int));
            lemma_pow10_fits_i128((k + 1) as nat);
            if k >= 1 {
                assert(pow10(k as nat) == 10 * pow10((k - 1) as nat));
                assert(pow10((k + 1) as nat) == 10 * pow10(k as nat));
                assert(pow10(k as nat) <= 10 * n + d < pow10((k + 1) as nat)) by (nonlinear_arith)
                    requires
                        pow10(k as nat) == 10 * pow10((k - 1) as nat),
                        pow10((k + 1) as nat) == 10 * pow10(k as nat),
                        pow10((k - 1) as nat) <= n < pow10(k as nat),
                        0 <= d < 10,
                ;
            } else {
                reveal_with_fuel(pow10, 2);
            }
        }
        n = n * 10 + d;
        k = k + 1;
    }
    proof {
        let ds = digits@.take(digit as int);
        assert forall|p: nat| p < digit implies #[trigger] digit_at(n as nat, p) == ds[digit - 1 - p]
            by {
            lemma_digit_at_value(ds, p);
        }
        assert forall|p: nat| p + 1 < digit implies #[trigger] digit_at(n as nat, p) != digit_at(
            n as nat,
            p + 1,
        ) by {
            assert(digits@[digit - 2 - p] != digits@[digit - 2 - p + 1]);
        }
        if digit <= 10 {
            assert forall|p: nat, q: nat| p < q < digit implies #[trigger] digit_at(n as nat, p)
                != #[trigger] digit_at(n as nat, q) by {
                assert(digits@.take(10)[digit - 1 - p] == digits@[digit - 1 - p]);
                assert(digits@.take(10)[digit - 1 - q] == digits@[digit - 1 - q]);
            }
        }
    }
    n
}

} // verus!
