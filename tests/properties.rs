use yomiage::generate::shuffle_problem;
use yomiage::{exclude_negative, generate, Config, Problem};

fn digit_length(x: i128) -> u32 {
    x.unsigned_abs().to_string().len() as u32
}

fn prefix_sums_nonnegative(terms: &[i128]) -> bool {
    let mut sum: i128 = 0;
    for &t in terms {
        sum += t;
        if sum < 0 {
            return false;
        }
    }
    true
}

fn config(min_digit: u32, max_digit: u32, length: u32, subtractions: u32, allow_negative: bool) -> Config {
    Config { min_digit, max_digit, length, subtractions, allow_negative }
}

fn assert_drill(c: Config, terms: &[i128]) {
    assert_eq!(terms.len(), c.length as usize);
    for &t in terms {
        let d = digit_length(t);
        assert!(c.min_digit <= d && d <= c.max_digit, "{} out of band", t);
    }
    assert_eq!(terms.iter().filter(|&&x| x < 0).count(), c.subtractions as usize);
    assert!(terms[0] >= 0);
    if !c.allow_negative {
        assert!(prefix_sums_nonnegative(terms));
    }
}

#[test]
fn generated_drills_meet_their_configuration() {
    let configs = [
        config(3, 6, 10, 3, true),
        config(3, 6, 10, 5, false),
        config(1, 1, 9, 4, false),
        config(2, 2, 5, 0, false),
        config(7, 12, 10, 9, true),
        config(1, 3, 1, 0, false),
        config(1, 2, 2, 1, false),
        config(20, 28, 30, 15, false),
    ];
    for c in configs {
        for _ in 0..20 {
            let terms = generate(c);
            assert_drill(c, &terms);
        }
    }
}

#[test]
fn extreme_digit_lengths_are_both_used() {
    let c = config(3, 6, 2, 0, true);
    for _ in 0..10 {
        let mut lengths: Vec<u32> = generate(c).iter().map(|&t| digit_length(t)).collect();
        lengths.sort();
        assert_eq!(lengths, vec![3, 6]);
    }
}

#[test]
fn largest_digit_length_is_generated() {
    let c = config(38, 38, 1, 0, false);
    assert!(c.fits_in_i128());
    let p = Problem::new(c).unwrap();
    assert_eq!(digit_length(p.problem[0]), 38);
    assert_eq!(p.answer, p.problem[0]);
}

#[test]
fn answer_is_the_sum_of_terms() {
    for c in [config(1, 5, 12, 4, true), config(4, 9, 11, 5, false)] {
        for _ in 0..20 {
            let p = Problem::new(c).unwrap();
            assert_eq!(p.answer, p.problem.iter().sum::<i128>());
            assert_drill(c, &p.problem);
        }
    }
}

#[test]
fn small_additions_only_example() {
    let c = config(1, 2, 7, 0, false);
    assert!(c.check().is_ok());
    let p = Problem::new(c).unwrap();
    assert_eq!(p.problem.len(), 7);
    assert!(p.problem.iter().all(|&t| (1..=99).contains(&t)));
    assert!(p.answer >= 0);
}

#[test]
fn each_rule_gives_its_reason() {
    let cases = [
        (config(0, 6, 10, 3, false), "minimum digit-length must be at least 1"),
        (config(3, 1, 10, 3, false), "maximum digit-length must not be less than minimum"),
        (config(3, 6, 0, 0, true), "length must be at least 1"),
        (config(3, 6, 10, 6, false), "too many subtractions for a non-negative-answer problem"),
        (config(3, 6, 10, 10, true), "subtraction count must be less than total term count"),
    ];
    for (c, reason) in cases {
        assert_eq!(c.check(), Err(reason.to_string()));
        assert_eq!(Problem::new(c).unwrap_err(), reason);
    }
}

#[test]
fn first_failing_rule_wins() {
    // breaks the digit order and the length rule: the earlier rule speaks
    let c = config(3, 1, 0, 0, false);
    assert_eq!(c.check().unwrap_err(), "maximum digit-length must not be less than minimum");
    // as many subtractions as terms, answer kept non-negative
    let c = config(1, 2, 10, 10, false);
    assert_eq!(c.check().unwrap_err(), "too many subtractions for a non-negative-answer problem");
}

#[test]
fn half_the_terms_may_be_subtracted() {
    assert!(config(1, 2, 10, 5, false).check().is_ok());
    assert!(config(1, 2, 11, 5, false).check().is_ok());
    assert!(config(1, 2, 11, 6, false).check().is_err());
    assert!(config(1, 2, 11, 10, true).check().is_ok());
}

#[test]
fn fits_in_i128_bounds() {
    assert!(config(1, 38, 1, 0, true).fits_in_i128());
    assert!(!config(1, 38, 2, 0, true).fits_in_i128());
    assert!(!config(1, 39, 1, 0, true).fits_in_i128());
    assert!(config(1, 28, u32::MAX, 0, true).fits_in_i128());
}

fn sample(terms: Vec<i128>, c: Config) -> Problem {
    let answer = terms.iter().sum();
    Problem { problem: terms, answer, config: c }
}

#[test]
fn script_meta_text() {
    let p = sample(vec![382, 8054, -70392], config(3, 6, 10, 3, false));
    assert_eq!(p.script_meta(), "3桁から6桁、10口、加減算です。ねがいましては。");
    let p = sample(vec![1], config(1, 2, 7, 0, false));
    assert_eq!(p.script_meta(), "1桁から2桁、7口、加算です。ねがいましては。");
}

#[test]
fn script_problem_text() {
    let p = sample(vec![382, 8054, -70392, -154, 284396], config(3, 6, 5, 2, false));
    assert_eq!(
        p.script_problem(),
        "382円なり、8054円なり、引いては70392円なり、154円なり、加えて284396円では。"
    );
    // a repeated amount closes the dictation only at the end
    let p = sample(vec![7, 7, 7], config(1, 1, 3, 0, false));
    assert_eq!(p.script_problem(), "7円なり、7円なり、7円では。");
    let p = sample(vec![-5, 10], config(1, 2, 2, 1, true));
    assert_eq!(p.script_problem(), "引いては5円なり、加えて10円では。");
    let p = sample(vec![100, -20], config(2, 3, 2, 1, true));
    assert_eq!(p.script_problem(), "100円なり、引いては20円では。");
}

#[test]
fn script_answer_text() {
    let p = sample(vec![382, 181063], config(3, 6, 2, 0, false));
    assert_eq!(p.script_answer(), "その答え、181445円です。");
    let p = sample(vec![10, -15], config(2, 2, 2, 1, true));
    assert_eq!(p.script_answer(), "その答え、マイナス5円です。");
    let p = sample(vec![10, -10], config(2, 2, 2, 1, true));
    assert_eq!(p.script_answer(), "その答え、0円です。");
}

#[test]
fn scripts_are_repeatable() {
    let p = Problem::new(config(3, 6, 10, 3, false)).unwrap();
    assert_eq!(p.script_meta(), p.script_meta());
    assert_eq!(p.script_problem(), p.script_problem());
    assert_eq!(p.script_answer(), p.script_answer());
}

#[test]
fn exclude_negative_keeps_good_order() {
    let mut terms = vec![5, -3, 4, -6];
    exclude_negative(&mut terms);
    assert_eq!(terms, vec![5, -3, 4, -6]);
    let mut terms = vec![-9, -1, 3, 20];
    exclude_negative(&mut terms);
    assert_eq!(terms, vec![3, -1, 20, -9]);
    let mut empty: Vec<i128> = vec![];
    exclude_negative(&mut empty);
    assert!(empty.is_empty());
}

#[test]
fn shuffle_problem_never_opens_with_a_subtraction() {
    for _ in 0..50 {
        let mut terms = vec![-1, -2, -3, 4];
        shuffle_problem(&mut terms);
        assert!(terms[0] >= 0);
        let mut sorted = terms.clone();
        sorted.sort();
        assert_eq!(sorted, vec![-3, -2, -1, 4]);
    }
}

#[test]
fn exclude_negative_swaps_in_the_nearest_fitting_term() {
    let mut terms = vec![3, -5, -2, 6];
    exclude_negative(&mut terms);
    assert_eq!(terms, vec![3, -2, 6, -5]);
}

#[test]
fn digit_lengths_are_dealt_round_robin() {
    let c = config(1, 3, 7, 0, true);
    for _ in 0..10 {
        let terms = generate(c);
        let count = |d: u32| terms.iter().filter(|&&t| digit_length(t) == d).count();
        assert_eq!(count(3), 3);
        assert_eq!(count(1), 2);
        assert_eq!(count(2), 2);
        assert!(terms.iter().all(|&t| t != 0));
    }
}

#[test]
fn numbers_have_no_repeated_neighbouring_digits() {
    for _ in 0..20 {
        let digits: Vec<char> = yomiage::digits::make_number(25).to_string().chars().collect();
        assert_eq!(digits.len(), 25);
        assert!(digits.windows(2).all(|w| w[0] != w[1]));
        let mut ten: Vec<char> = yomiage::digits::make_number(10).to_string().chars().collect();
        ten.sort();
        ten.dedup();
        assert_eq!(ten.len(), 10);
    }
}

#[test]
fn subtractions_stay_in_the_first_half() {
    let c = config(1, 2, 9, 4, false);
    for _ in 0..20 {
        let mut terms: Vec<i128> = vec![5, 5, 7, 12, 3, 40, 8, 8, 1];
        yomiage::generate::set_subtractions(&mut terms, c);
        for (k, &t) in terms.iter().enumerate() {
            if t < 0 {
                assert!(k < 4);
            }
        }
        let mut magnitudes: Vec<i128> = terms.iter().map(|t| t.abs()).collect();
        magnitudes.sort();
        assert_eq!(magnitudes, vec![1, 3, 5, 5, 7, 8, 8, 12, 40]);
    }
}
