use crate::config::Config;
use crate::digits::{digit_length, make_number, swap_items};
use crate::random::{random_in, shuffle};
use crate::sums::{
    abs, count_negative, lemma_concat, magnitudes, lemma_nonnegative_term, lemma_permutation, lemma_positive_term, lemma_swap,
    lemma_total_bound, prefix_sums_nonnegative, total,
};
use crate::rounds::{
    balanced_count, count_digit_length, lemma_residue_count_balanced, occurrences, residue_count,
};
use vstd::prelude::*;

verus! {

broadcast use vstd::seq_lib::group_to_multiset_ensures;

/// Whether `j` is the first index after `i` whose term keeps the running
/// sum `sum` at zero or more.
pub open spec fn is_nearest_fit(s: Seq<i128>, i: int, sum: int, j: int) -> bool {
    &&& i < j < s.len()
    &&& sum + s[j] >= 0
    &&& forall|k: int| i < k < j ==> sum + #[trigger] s[k] < 0
}

/// The repair scan from index `i` on, with running sum `sum` of the terms
/// before it: where the term at `i` would take the sum below zero, the
/// nearest later term that keeps it at zero or more is swapped in.
pub open spec fn repair_from(s: Seq<i128>, i: nat, sum: int) -> Seq<i128>
    decreases s.len() - i,
{
    if i >= s.len() {
        s
    } else if sum + s[i as int] >= 0 {
        repair_from(s, i + 1, sum + s[i as int])
    } else if exists|j: int| is_nearest_fit(s, i as int, sum, j) {
        let j = choose|j: int| is_nearest_fit(s, i as int, sum, j);
        let t = s.update(i as int, s[j]).update(j, s[i as int]);
        repair_from(t, i + 1, sum + t[i as int])
    } else {
        s
    }
}

/// The terms after the repair scan over all of them.
pub open spec fn repaired(s: Seq<i128>) -> Seq<i128> {
    repair_from(s, 0, 0)
}

proof fn lemma_repair_keeps_from(s: Seq<i128>, i: nat)
    requires
        i <= s.len(),
        prefix_sums_nonnegative(s),
    ensures
        repair_from(s, i, total(s.take(i as int))) == s,
    decreases s.len() - i,
{
    if i < s.len() {
        assert(s.take(i + 1int).drop_last() =~= s.take(i as int));
        assert(total(s.take(i + 1int)) >= 0);
        lemma_repair_keeps_from(s, i + 1);
    }
}

/// Terms whose prefix sums are all zero or more come out of the repair scan
/// unchanged.
pub proof fn lemma_repair_keeps_good_order(s: Seq<i128>)
    requires
        prefix_sums_nonnegative(s),
    ensures
        repaired(s) == s,
{
    assert(s.take(0) =~= Seq::<i128>::empty());
    lemma_repair_keeps_from(s, 0);
}

/// Reorders the terms so that no prefix sum is negative: wherever adding the
/// next term would take the running sum below zero, the nearest later term
/// that keeps it at zero or more is swapped in.
pub fn exclude_negative(problem: &mut Vec<i128>)
    requires
        total(old(problem)@) >= 0,
        forall|k: int|
            0 <= k < old(problem).len() ==> old(problem).len() * abs(#[trigger] old(problem)@[k])
                <= i128::MAX,
    ensures
        final(problem)@ == repaired(old(problem)@),
        final(problem)@.to_multiset() == old(problem)@.to_multiset(),
        prefix_sums_nonnegative(final(problem)@),
{
    let n = problem.len();
    if n == 0 {
        assert(problem@.take(0) =~= Seq::<i128>::empty());
        return;
    }
    let ghost orig = problem@;
    let ghost b: int = (i128::MAX as int) / (n as int);
    proof {
        assert(n * b <= i128::MAX) by (nonlinear_arith)
            requires
                b == (i128::MAX as int) / (n as int),
                n > 0,
        ;
        assert forall|k: int| 0 <= k < n implies -b <= #[trigger] problem@[k] <= b by {
            let x = abs(problem@[k]) as int;
            assert(x <= b) by (nonlinear_arith)
                requires
                    n * x <= i128::MAX,
                    b == (i128::MAX as int) / (n as int),
                    n > 0,
            ;
        }
        assert(problem@.take(0) =~= Seq::<i128>::empty());
    }
    let mut sum: i128 = 0;
    let mut i: usize = 0;
    while i < n
        invariant
            n == problem.len() > 0,
            i <= n,
            0 <= b,
            n * b <= i128::MAX,
            forall|k: int| 0 <= k < n ==> -b <= #[trigger] problem@[k] <= b,
            problem@.to_multiset() == orig.to_multiset(),
            total(problem@) == total(orig) >= 0,
            sum == total(problem@.take(i as int)),
            forall|k: int| 0 <= k <= i ==> total(#[trigger] problem@.take(k)) >= 0,
            repair_from(problem@, i as nat, sum as int) == repaired(orig),
        decreases n - i,
    {
        proof {
            lemma_total_bound(problem@.take(i as int), b);
            assert(i * b + b <= n * b) by (nonlinear_arith)
                requires
                    i < n,
                    0 <= b,
            ;
        }
        if sum + problem[i] < 0 {
            let ghost s = problem@;
            proof {
                assert(s =~= s.take(i + 1) + s.skip(i + 1));
                assert(s.take(i + 1int).drop_last() =~= s.take(i as int));
                lemma_concat(s.take(i + 1), s.skip(i + 1));
                lemma_positive_term(s.skip(i + 1));
            }
            let ghost rest = s.skip(i + 1);
            let ghost w = choose|w: int| 0 <= w < rest.len() && #[trigger] rest[w] > 0;
            assert(s[i + 1 + w] == rest[w]);
            let mut j: usize = i + 1;
            while sum + problem[j] < 0
                invariant
                    problem@ == s,
                    n == s.len(),
                    i < j <= i + 1 + w < n,
                    s[i + 1 + w] > 0,
                    sum >= 0,
                    0 <= b,
                    n * b <= i128::MAX,
                    i * b + b <= n * b,
                    -(i * b) <= sum <= i * b,
                    forall|k: int| 0 <= k < n ==> -b <= #[trigger] problem@[k] <= b,
                    forall|k: int| i < k < j ==> sum + #[trigger] s[k] < 0,
                decreases n - j,
            {
                j = j + 1;
            }
            proof {
                assert(is_nearest_fit(s, i as int, sum as int, j as int));
                let c = choose|c: int| is_nearest_fit(s, i as int, sum as int, c);
                if c < j {
                    assert(sum + s[c] < 0);
                } else if c > j {
                    assert(sum + s[j as int] < 0);
                }
                assert(c == j);
            }
            swap_items(problem, i, j);
            proof {
                lemma_swap(s, i as int, j as int);
                lemma_permutation(problem@, s);
                assert forall|k: int| 0 <= k <= i implies #[trigger] problem@.take(k) =~= s.take(
                    k,
                ) by {}
                assert forall|k: int| 0 <= k < n implies -b <= #[trigger] problem@[k] <= b by {
                    if k == i {
                        assert(problem@[k] == s[j as int]);
                    } else if k == j {
                        assert(problem@[k] == s[i as int]);
                    } else {
                        assert(problem@[k] == s[k]);
                    }
                }
            }
        }
        proof {
            assert(problem@.take(i + 1).drop_last() =~= problem@.take(i as int));
        }
        sum = sum + problem[i];
        i = i + 1;
    }
}

/// Shuffles the terms into their final order; a drill never opens with a
/// subtraction, so a negative first term is swapped with the first
/// non-negative one found from a random place on, cyclically.
pub fn shuffle_problem(problem: &mut Vec<i128>)
    requires
        old(problem).len() >= 1,
        count_negative(old(problem)@) < old(problem).len(),
    ensures
        final(problem)@.to_multiset() == old(problem)@.to_multiset(),
        final(problem)@[0] >= 0,
{
    let ghost orig = problem@;
    shuffle(problem);
    let n = problem.len();
    proof {
        assert(problem@.to_multiset().len() == orig.to_multiset().len());
        lemma_permutation(problem@, orig);
        lemma_nonnegative_term(problem@);
    }
    if problem[0] < 0 {
        let ghost s = problem@;
        let ghost w = choose|w: int| 0 <= w < s.len() && #[trigger] s[w] >= 0;
        let mut target = random_in(1, n);
        while problem[target] < 0
            invariant
                problem@ == s,
                n == s.len(),
                0 < w < n,
                target < n,
                s[w] >= 0,
            decreases if w >= target {
                w - target
            } else {
                w + n - target
            },
        {
            target = if target + 1 < n {
                target + 1
            } else {
                0
            };
        }
        swap_items(problem, 0, target);
        proof {
            lemma_swap(s, 0, target as int);
        }
    }
}

/// Whether some term has absolute value `m`.
pub open spec fn has_magnitude(s: Seq<i128>, m: int) -> bool {
    exists|j: int| 0 <= j < s.len() && abs(#[trigger] s[j]) == m
}

/// Whether some term has `d` digits.
pub open spec fn has_digit_length(s: Seq<i128>, d: nat) -> bool {
    exists|k: int| 0 <= k < s.len() && digit_length(abs(#[trigger] s[k])) == d
}

proof fn lemma_digit_length_kept(s1: Seq<i128>, s2: Seq<i128>, d: nat)
    requires
        s1.to_multiset() == s2.to_multiset(),
        has_digit_length(s1, d),
    ensures
        has_digit_length(s2, d),
{
    let k = choose|k: int| 0 <= k < s1.len() && digit_length(abs(#[trigger] s1[k])) == d;
    assert(s2.to_multiset().count(s1[k]) > 0);
    assert(s2.contains(s1[k]));
    let j = choose|j: int| 0 <= j < s2.len() && s2[j] == s1[k];
    assert(digit_length(abs(s2[j])) == d);
}

proof fn lemma_counts_kept(config: Config, s1: Seq<i128>, s2: Seq<i128>)
    requires
        magnitudes(s1).to_multiset() == magnitudes(s2).to_multiset(),
        forall|d: nat|
            config.min_digit <= d <= config.max_digit ==> balanced_count(
                config,
                d,
                #[trigger] count_digit_length(magnitudes(s1), d),
            ),
    ensures
        forall|d: nat|
            config.min_digit <= d <= config.max_digit ==> balanced_count(
                config,
                d,
                #[trigger] count_digit_length(magnitudes(s2), d),
            ),
{
    assert forall|d: nat| config.min_digit <= d <= config.max_digit implies balanced_count(
        config,
        d,
        #[trigger] count_digit_length(magnitudes(s2), d),
    ) by {
        crate::rounds::lemma_count_permutation(magnitudes(s1), magnitudes(s2), d);
    }
}

/// Whether the term's digit-length lies within the configured bounds, so
/// that its absolute value is at least `10^(min_digit - 1)` (and not zero).
pub open spec fn in_band(config: Config, x: i128) -> bool {
    &&& config.min_digit <= digit_length(abs(x)) <= config.max_digit
    &&& crate::digits::pow10((config.min_digit - 1) as nat) <= abs(x)
}

/// Puts the half of the terms with the smaller sum first: where the first
/// `n / 2` terms sum to more than the rest, each of them is swapped with the
/// term `n / 2` places on.
fn smaller_half_first(problem: &mut Vec<i128>, Ghost(top): Ghost<int>)
    requires
        0 <= top,
        top * old(problem).len() <= i128::MAX,
        forall|k: int| 0 <= k < old(problem).len() ==> 0 < #[trigger] old(problem)@[k] <= top,
    ensures
        final(problem)@.to_multiset() == old(problem)@.to_multiset(),
        total(final(problem)@.take((old(problem).len() / 2) as int)) <= total(
            final(problem)@.skip((old(problem).len() / 2) as int),
        ),
{
    let n = problem.len();
    let h = n / 2;
    proof {
        assert((n - h) * top <= i128::MAX && h * top <= i128::MAX) by (nonlinear_arith)
            requires
                h <= n,
                top >= 0,
                top * n <= i128::MAX,
        ;
    }
    let sum_former = crate::sums::sum_terms(problem, 0, h, Ghost(top));
    let sum_latter = crate::sums::sum_terms(problem, h, n, Ghost(top));
    let ghost s = problem@;
    proof {
        assert(s.subrange(0, h as int) =~= s.take(h as int));
        assert(s.subrange(h as int, n as int) =~= s.skip(h as int));
    }
    if sum_former > sum_latter {
        let mut i: usize = 0;
        while i < h
            invariant
                h == n / 2,
                n == s.len(),
                i <= h,
                problem.len() == n,
                problem@.to_multiset() == s.to_multiset(),
                forall|k: int| 0 <= k < i ==> #[trigger] problem@[k] == s[h + k],
                forall|k: int| 0 <= k < i ==> #[trigger] problem@[h + k] == s[k],
                forall|k: int| i <= k < h || h + i <= k < n ==> #[trigger] problem@[k] == s[k],
            decreases h - i,
        {
            let ghost before = problem@;
            swap_items(problem, i, h + i);
            proof {
                lemma_swap(before, i as int, h + i);
            }
            i = i + 1;
        }
        proof {
            let t = problem@;
            let mid = s.subrange(h as int, 2 * h);
            let tail = s.subrange(2 * h, n as int);
            assert(t.take(h as int) =~= mid);
            assert forall|k: int| 0 <= k < n - h implies #[trigger] t.skip(h as int)[k] == (
            s.take(h as int) + tail)[k] by {
                assert(t.skip(h as int)[k] == t[h + k]);
                if k < h {
                    assert(t[h + k] == s[k]);
                } else {
                    assert(t[h + k] == s[h + k]);
                }
            }
            assert(t.skip(h as int) =~= s.take(h as int) + tail);
            assert(s.skip(h as int) =~= mid + tail);
            lemma_concat(s.take(h as int), tail);
            lemma_concat(mid, tail);
            assert forall|k: int| 0 <= k < tail.len() implies tail[k] >= 0 by {
                assert(tail[k] == s[2 * h + k]);
            }
            crate::sums::lemma_all_nonnegative(tail);
        }
    }
}

/// Makes exactly `subtractions` terms negative. Where the answer must not be
/// negative, the half of the terms with the smaller sum is put first and the
/// subtractions are chosen among it alone. Each eligible position is negated
/// with probability `remaining subtractions / remaining positions`.
pub fn set_subtractions(problem: &mut Vec<i128>, config: Config)
    requires
        config.is_valid(),
        config.fits_i128(),
        old(problem).len() == config.length,
        forall|k: int|
            0 <= k < old(problem).len() ==> 0 < #[trigger] old(problem)@[k] < crate::digits::pow10(
                config.max_digit as nat,
            ),
    ensures
        final(problem).len() == config.length,
        forall|k: int|
            0 <= k < final(problem).len() ==> abs(#[trigger] final(problem)@[k])
                < crate::digits::pow10(config.max_digit as nat) && old(problem)@.contains(
                abs(final(problem)@[k]) as i128,
            ),
        forall|k: int|
            0 <= k < old(problem).len() ==> has_magnitude(
                final(problem)@,
                #[trigger] old(problem)@[k] as int,
            ),
        magnitudes(final(problem)@).to_multiset() == magnitudes(old(problem)@).to_multiset(),
        count_negative(final(problem)@) == config.subtractions,
        !config.allow_negative ==> forall|k: int|
            0 <= k < final(problem).len() && #[trigger] final(problem)@[k] < 0 ==> k
                < config.length / 2,
        !config.allow_negative ==> total(final(problem)@) >= 0,
{
    let ghost orig = problem@;
    shuffle(problem);
    let n = problem.len();
    let h = n / 2;
    assert(problem@.to_multiset().len() == orig.to_multiset().len());
    let ghost top: int = crate::digits::pow10(config.max_digit as nat) - 1;
    proof {
        crate::digits::lemma_pow10_positive(config.max_digit as nat);
        assert forall|k: int| 0 <= k < n implies 0 < #[trigger] problem@[k] <= top by {
            assert(problem@.to_multiset().count(problem@[k]) > 0);
            assert(orig.contains(problem@[k]));
        }
    }
    if !config.allow_negative {
        smaller_half_first(problem, Ghost(top));
    }
    let ghost t = problem@;
    proof {
        assert(t.to_multiset().len() == orig.to_multiset().len());
        assert forall|k: int| 0 <= k < n implies #[trigger] t[k] > 0 && orig.contains(t[k]) by {
            assert(t.to_multiset().count(t[k]) > 0);
            assert(orig.contains(t[k]));
        }
    }
    let eligible: usize = if config.allow_negative {
        n
    } else {
        h
    };
    let mut remain: u32 = config.subtractions;
    let mut i: usize = 0;
    assert(problem@.take(0) =~= Seq::<i128>::empty());
    while i < eligible
        invariant
            eligible <= n == t.len() == problem.len(),
            i <= eligible,
            remain <= eligible - i,
            count_negative(problem@.take(i as int)) + remain == config.subtractions,
            forall|k: int| 0 <= k < n ==> #[trigger] t[k] > 0 && orig.contains(t[k]),
            forall|k: int|
                0 <= k < n ==> (#[trigger] problem@[k] == t[k] || (k < i && problem@[k] == -t[k])),
        decreases eligible - i,
    {
        let ghost before = problem@;
        let draw = random_in(0, eligible - i);
        if draw < remain as usize {
            let x = problem[i];
            problem.set(i, -x);
            remain = remain - 1;
        }
        proof {
            assert(problem@.take(i + 1).drop_last() =~= problem@.take(i as int));
            assert(problem@.take(i as int) =~= before.take(i as int));
        }
        i = i + 1;
    }
    proof {
        let p = problem@;
        crate::sums::lemma_magnitudes_permutation(t, orig);
        assert(magnitudes(p) =~= magnitudes(t));
        assert(p =~= p.take(eligible as int) + p.skip(eligible as int));
        lemma_concat(p.take(eligible as int), p.skip(eligible as int));
        assert forall|k: int| 0 <= k < p.skip(eligible as int).len() implies p.skip(
            eligible as int,
        )[k] >= 0 by {
            assert(p.skip(eligible as int)[k] == p[eligible + k]);
        }
        crate::sums::lemma_all_nonnegative(p.skip(eligible as int));
        assert forall|k: int| 0 <= k < n implies has_magnitude(p, #[trigger] orig[k] as int) by {
            assert(t.to_multiset().count(orig[k]) > 0);
            assert(t.contains(orig[k]));
            let m = choose|m: int| 0 <= m < n && t[m] == orig[k];
            assert(abs(p[m]) == t[m]);
        }
        assert forall|k: int|
            0 <= k < n implies abs(#[trigger] p[k]) < crate::digits::pow10(config.max_digit as nat)
            && orig.contains(abs(p[k]) as i128) by {
            assert(orig.contains(t[k]));
            assert(abs(p[k]) as i128 == t[k]);
        }
        if !config.allow_negative {
            assert(t =~= t.take(h as int) + t.skip(h as int));
            lemma_concat(t.take(h as int), t.skip(h as int));
            assert(p.skip(h as int) =~= t.skip(h as int));
            crate::sums::lemma_signed_total(p.take(h as int), t.take(h as int));
        }
    }
}

/// What every generated drill satisfies: `length` terms, each of
/// `min_digit..=max_digit` digits, with a term of `max_digit` digits and,
/// where there are two terms or more, one of `min_digit` digits; exactly
/// `subtractions` of them negative, a first term that is not, and, unless a
/// negative answer is allowed, no prefix with a negative sum.
pub open spec fn is_drill(config: Config, s: Seq<i128>) -> bool {
    &&& s.len() == config.length
    &&& forall|k: int| 0 <= k < s.len() ==> in_band(config, #[trigger] s[k])
    &&& forall|d: nat|
        config.min_digit <= d <= config.max_digit ==> balanced_count(
            config,
            d,
            #[trigger] count_digit_length(magnitudes(s), d),
        )
    &&& has_digit_length(s, config.max_digit as nat)
    &&& s.len() >= 2 ==> has_digit_length(s, config.min_digit as nat)
    &&& count_negative(s) == config.subtractions
    &&& s[0] >= 0
    &&& !config.allow_negative ==> prefix_sums_nonnegative(s)
}

/// The digit-length of each term: the digit-lengths from `min_digit` to
/// `max_digit` in random order, with `max_digit` first and `min_digit`
/// second, repeated round-robin. Each round of `max_digit - min_digit + 1`
/// terms thus holds each digit-length once, but the last, which may be cut.
pub fn make_digit_pattern(config: Config) -> (pattern: Vec<u32>)
    requires
        1 <= config.min_digit <= config.max_digit,
    ensures
        pattern.len() == config.length,
        forall|i: int|
            0 <= i < pattern.len() ==> config.min_digit <= #[trigger] pattern@[i]
                <= config.max_digit,
        config.length >= 1 ==> pattern@[0] == config.max_digit,
        config.length >= 2 ==> pattern@[1] == config.min_digit,
        forall|i: int, j: int|
            0 <= i < j < pattern.len() && j <= config.max_digit - config.min_digit ==> pattern@[i]
                != pattern@[j],
        forall|i: int|
            config.max_digit - config.min_digit < i < pattern.len() ==> #[trigger] pattern@[i]
                == pattern@[i - (config.max_digit - config.min_digit + 1)],
        forall|d: nat|
            config.min_digit <= d <= config.max_digit ==> balanced_count(
                config,
                d,
                #[trigger] occurrences(pattern@, d),
            ),
{
    let min = config.min_digit;
    let max = config.max_digit;
    let count = max - min + 1;
    let mut list: Vec<u32> = Vec::new();
    let mut i: u32 = 0;
    while i < count
        invariant
            count == max - min + 1,
            i <= count,
            list.len() == i,
            forall|j: int| 0 <= j < i ==> #[trigger] list@[j] == min + j,
        decreases count - i,
    {
        list.push(min + i);
        i = i + 1;
    }
    let ghost listed = list@;
    assert(listed[0] == min && listed[count - 1] == max);
    assert(listed.no_duplicates());
    shuffle(&mut list);
    let len = list.len();
    proof {
        listed.lemma_multiset_has_no_duplicates();
        list@.lemma_multiset_has_no_duplicates_conv();
        assert(list@.to_multiset().len() == listed.to_multiset().len());
        assert forall|j: int| 0 <= j < len implies min <= #[trigger] list@[j] <= max by {
            assert(list@.to_multiset().count(list@[j]) > 0);
            assert(listed.contains(list@[j]));
        }
        assert(listed.to_multiset().count(listed[0]) > 0);
        assert(listed.to_multiset().count(listed[count - 1]) > 0);
        assert(list@.contains(min) && list@.contains(max));
    }
    let ghost w = choose|w: int| 0 <= w < len && #[trigger] list@[w] == max;
    let mut p: usize = 0;
    while list[p] != max
        invariant
            len == list.len(),
            p <= w < len,
            list@[w] == max,
        decreases len - p,
    {
        p = p + 1;
    }
    let ghost shuffled = list@;
    swap_items(&mut list, 0, p);
    proof {
        lemma_swap(shuffled, 0, p as int);
        crate::digits::lemma_swap_distinct(shuffled, 0, p as int);
        assert forall|j: int| 0 <= j < len implies min <= #[trigger] list@[j] <= max by {
            assert(list@.to_multiset().count(list@[j]) > 0);
            assert(shuffled.contains(list@[j]));
        }
        assert(shuffled.to_multiset().count(min) > 0);
        assert(list@.contains(min));
    }
    if count >= 2 {
        let ghost v = choose|v: int| 0 <= v < len && #[trigger] list@[v] == min;
        let mut q: usize = 1;
        while list[q] != min
            invariant
                len == list.len(),
                1 <= q <= v < len,
                list@[v] == min,
            decreases len - q,
        {
            q = q + 1;
        }
        let ghost placed = list@;
        swap_items(&mut list, 1, q);
        proof {
            lemma_swap(placed, 1, q as int);
            crate::digits::lemma_swap_distinct(placed, 1, q as int);
            assert forall|j: int| 0 <= j < len implies min <= #[trigger] list@[j] <= max by {
                assert(list@.to_multiset().count(list@[j]) > 0);
                assert(placed.contains(list@[j]));
            }
        }
    }
    let length = config.length as usize;
    let mut pattern: Vec<u32> = Vec::new();
    let mut i: usize = 0;
    let ghost dealt = list@;
    proof {
        assert(dealt.to_multiset() == listed.to_multiset());
    }
    while i < length
        invariant
            dealt == list@,
            dealt.to_multiset() == listed.to_multiset(),
            forall|r: int| 0 <= r < len ==> #[trigger] occurrences(pattern@, dealt[r] as nat)
                == residue_count(i as nat, len as nat, r as nat),
            len == list.len() == count >= 1,
            list@[0] == max,
            count >= 2 ==> list@[1] == min,
            list@.no_duplicates(),
            forall|j: int| 0 <= j < len ==> min <= #[trigger] list@[j] <= max,
            i <= length,
            pattern.len() == i,
            forall|j: int| 0 <= j < i ==> #[trigger] pattern@[j] == list@[j % (len as int)],
        decreases length - i,
    {
        let ghost before = pattern@;
        pattern.push(list[i % len]);
        proof {
            assert(pattern@.drop_last() =~= before);
            assert forall|r: int| 0 <= r < len implies #[trigger] occurrences(
                pattern@,
                dealt[r] as nat,
            ) == residue_count((i + 1) as nat, len as nat, r as nat) by {
                assert(pattern@.last() == dealt[i as int % len as int]);
                assert(occurrences(before, dealt[r] as nat) == residue_count(
                    i as nat,
                    len as nat,
                    r as nat,
                ));
                assert(residue_count((i + 1) as nat, len as nat, r as nat) == residue_count(
                    i as nat,
                    len as nat,
                    r as nat,
                ) + if i as int % len as int == r {
                    1nat
                } else {
                    0nat
                });
                if r != i as int % len as int {
                    assert(dealt[r] != dealt[i as int % len as int]);
                }
            }
        }
        i = i + 1;
    }
    proof {
        assert forall|d: nat| min <= d <= max implies balanced_count(
            config,
            d,
            #[trigger] occurrences(pattern@, d),
        ) by {
            assert(listed[d - min] == d);
            assert(listed.to_multiset().count(d as u32) > 0);
            assert(dealt.contains(d as u32));
            let r = choose|r: int| 0 <= r < len && dealt[r] == d as u32;
            lemma_residue_count_balanced(length as nat, len as nat, r as nat);
            if d == max {
                assert(r == 0);
            }
            if count >= 2 && d == min {
                assert(r == 1);
            }
        }
    }
    proof {
        assert forall|i: int, j: int| 0 <= i < j < length && j < len implies pattern@[i]
            != pattern@[j] by {
            vstd::arithmetic::div_mod::lemma_small_mod(i as nat, len as nat);
            vstd::arithmetic::div_mod::lemma_small_mod(j as nat, len as nat);
        }
        assert forall|i: int| len <= i < length implies #[trigger] pattern@[i] == pattern@[i
            - len] by {
            vstd::arithmetic::div_mod::lemma_mod_multiples_vanish(1, i - len, len as int);
        }
        if length >= 2 {
            assert(pattern@[1] == list@[1int % (len as int)]);
            if len >= 2 {
                vstd::arithmetic::div_mod::lemma_small_mod(1, len as nat);
            } else {
                assert(1int % 1int == 0);
            }
        }
    }
    pattern
}

/// Generates the terms of a drill for a validated configuration.
pub fn generate(config: Config) -> (problem: Vec<i128>)
    requires
        config.is_valid(),
        config.fits_i128(),
    ensures
        is_drill(config, problem@),
{
    let pattern = make_digit_pattern(config);
    let length = config.length as usize;
    let mut problem: Vec<i128> = Vec::new();
    let mut i: usize = 0;
    while i < length
        invariant
            config.is_valid(),
            config.fits_i128(),
            pattern.len() == length == config.length,
            forall|j: int|
                0 <= j < pattern.len() ==> config.min_digit <= #[trigger] pattern@[j]
                    <= config.max_digit,
            i <= length,
            problem.len() == i,
            forall|j: int|
                0 <= j < i ==> #[trigger] problem@[j] > 0 && digit_length(abs(problem@[j]))
                    == pattern@[j] && crate::digits::pow10((config.min_digit - 1) as nat)
                    <= problem@[j],
            forall|d: nat|
                #[trigger] count_digit_length(magnitudes(problem@), d) == occurrences(
                    pattern@.take(i as int),
                    d,
                ),
        decreases length - i,
    {
        let digit = pattern[i];
        let number = make_number(digit);
        proof {
            crate::digits::lemma_pow10_positive((digit - 1) as nat);
            crate::digits::lemma_digit_length_of_bounds(number as nat, digit as nat);
            crate::digits::lemma_pow10_monotone(
                (config.min_digit - 1) as nat,
                (digit - 1) as nat,
            );
        }
        let ghost before = problem@;
        problem.push(number);
        proof {
            assert(magnitudes(problem@).drop_last() =~= magnitudes(before));
            assert(pattern@.take(i + 1).drop_last() =~= pattern@.take(i as int));
            assert(magnitudes(problem@).last() == abs(number));
            assert forall|d: nat| #[trigger]
                count_digit_length(magnitudes(problem@), d) == occurrences(
                    pattern@.take(i + 1),
                    d,
                ) by {
                assert(count_digit_length(magnitudes(before), d) == occurrences(
                    pattern@.take(i as int),
                    d,
                ));
            }
        }
        i = i + 1;
    }
    proof {
        assert(pattern@.take(length as int) =~= pattern@);
    }
    let ghost made = problem@;
    proof {
        assert(in_band(config, made[0]));
        assert forall|k: int| 0 <= k < length implies in_band(config, #[trigger] made[k]) by {
            assert(digit_length(abs(made[k])) == pattern@[k]);
        }
        assert forall|k: int| 0 <= k < length implies 0 < #[trigger] made[k] < crate::digits::pow10(
            config.max_digit as nat,
        ) by {
            crate::digits::lemma_bound_of_digit_length(abs(made[k]), config.max_digit as nat);
        }
    }
    set_subtractions(&mut problem, config);
    let ghost placed = problem@;
    proof {
        lemma_counts_kept(config, made, placed);
    }
    proof {
        crate::digits::lemma_pow10_fits_i128(config.max_digit as nat);
    }
    assert forall|k: int| 0 <= k < length implies in_band(config, #[trigger] placed[k]) by {
        let j = choose|j: int| 0 <= j < made.len() && made[j] == abs(placed[k]) as i128;
        assert(in_band(config, made[j]));
    }
    proof {
        assert(has_magnitude(placed, made[0] as int));
        let j = choose|j: int| 0 <= j < placed.len() && abs(#[trigger] placed[j]) == made[0] as int;
        assert(digit_length(abs(placed[j])) == config.max_digit);
        if length >= 2 {
            assert(has_magnitude(placed, made[1] as int));
            let j = choose|j: int|
                0 <= j < placed.len() && abs(#[trigger] placed[j]) == made[1] as int;
            assert(digit_length(abs(placed[j])) == config.min_digit);
        }
    }
    shuffle_problem(&mut problem);
    let ghost top: int = crate::digits::pow10(config.max_digit as nat) - 1;
    proof {
        assert(problem@.to_multiset().len() == placed.to_multiset().len());
        lemma_permutation(problem@, placed);
        crate::sums::lemma_magnitudes_permutation(placed, problem@);
        lemma_counts_kept(config, placed, problem@);
        lemma_digit_length_kept(placed, problem@, config.max_digit as nat);
        if length >= 2 {
            lemma_digit_length_kept(placed, problem@, config.min_digit as nat);
        }
        assert forall|k: int| 0 <= k < length implies in_band(config, #[trigger] problem@[k]) by {
            assert(problem@.to_multiset().count(problem@[k]) > 0);
            assert(placed.contains(problem@[k]));
        }
    }
    if !config.allow_negative {
        let ghost shuffled = problem@;
        proof {
            assert forall|k: int| 0 <= k < length implies length * abs(#[trigger] problem@[k])
                <= i128::MAX by {
                let x = abs(problem@[k]);
                crate::digits::lemma_bound_of_digit_length(x, config.max_digit as nat);
                assert(length * x <= i128::MAX) by (nonlinear_arith)
                    requires
                        x <= top,
                        top * length <= i128::MAX,
                ;
            }
        }
        exclude_negative(&mut problem);
        proof {
            assert(problem@.to_multiset().len() == shuffled.to_multiset().len());
            lemma_permutation(problem@, shuffled);
            crate::sums::lemma_magnitudes_permutation(shuffled, problem@);
            lemma_counts_kept(config, shuffled, problem@);
            lemma_digit_length_kept(shuffled, problem@, config.max_digit as nat);
            if length >= 2 {
                lemma_digit_length_kept(shuffled, problem@, config.min_digit as nat);
            }
            assert forall|k: int| 0 <= k < length implies in_band(config, #[trigger] problem@[k])
                by {
                assert(problem@.to_multiset().count(problem@[k]) > 0);
                assert(shuffled.contains(problem@[k]));
            }
            let first = problem@.take(1);
            assert(total(first) >= 0);
            assert(first.drop_last() =~= Seq::<i128>::empty());
            assert(total(first) == total(first.drop_last()) + first.last());
            assert(first.last() == problem@[0]);
        }
    }
    problem
}

} // verus!
