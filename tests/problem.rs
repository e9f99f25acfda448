use yomiage::{YomiageConfig, YomiageProblem};

#[test]
fn problem_test_yomiage_problem_new() {
    let config = YomiageConfig {
        min_digit: 1,
        max_digit: 2,
        length: 10,
        subtractions: 3,
        allow_negative: false,
    };
    let minimum = 10_i128.pow(config.min_digit - 1);
    let maximum = 10_i128.pow(config.max_digit) - 1;
    for _ in 0..10 {
        let yp = YomiageProblem::new(config).unwrap();
        println!("{:?}", yp.problem);
        println!("{:?}", yp.answer);
        assert_eq!(yp.problem.len(), config.length as usize);
        assert_eq!(yp.answer, yp.problem.iter().sum());
        assert!(yp.problem.iter().map(|&x| x.abs()).min().unwrap() >= minimum);
        assert!(yp.problem.iter().map(|&x| x.abs()).max().unwrap() <= maximum);
    }
}

#[test]
fn problem_test_yomiage_problem_script_meta() {
    let config = YomiageConfig {
        min_digit: 1,
        max_digit: 2,
        length: 7,
        subtractions: 0,
        allow_negative: false,
    };
    let yp = YomiageProblem::new(config).unwrap();
    let script_meta = yp.script_meta();
    println!("{}", script_meta);

    let config = YomiageConfig {
        min_digit: 7,
        max_digit: 12,
        length: 10,
        subtractions: 3,
        allow_negative: false,
    };
    let yp = YomiageProblem::new(config).unwrap();
    let script_meta = yp.script_meta();
    println!("{}", script_meta);
}

#[test]
fn problem_test_yomiage_problem_script_problem() {
    let config = YomiageConfig {
        min_digit: 3,
        max_digit: 6,
        length: 10,
        subtractions: 3,
        allow_negative: false,
    };
    let yp = YomiageProblem::new(config).unwrap();
    let script_problem = yp.script_problem();
    println!("{}", script_problem);

    let config = YomiageConfig {
        min_digit: 7,
        max_digit: 12,
        length: 10,
        subtractions: 3,
        allow_negative: false,
    };
    let yp = YomiageProblem::new(config).unwrap();
    let script_problem = yp.script_problem();
    println!("{}", script_problem);
}

#[test]
fn problem_test_yomiage_problem_script_answer() {
    let config = YomiageConfig {
        min_digit: 1,
        max_digit: 2,
        length: 7,
        subtractions: 0,
        allow_negative: false,
    };
    let yp = YomiageProblem::new(config).unwrap();
    let script_answer = yp.script_answer();
    println!("{}", script_answer);

    let config = YomiageConfig {
        min_digit: 7,
        max_digit: 12,
        length: 10,
        subtractions: 9,
        allow_negative: true,
    };
    let yp = YomiageProblem::new(config).unwrap();
    let script_answer = yp.script_answer();
    println!("{}", script_answer);
}

#[test]
fn problem_test_yomiage_config_check() {
    // OK
    let config = YomiageConfig {
        min_digit: 3,
        max_digit: 6,
        length: 10,
        subtractions: 5,
        allow_negative: false,
    };
    assert!(config.check().is_ok());

    // min_digit < 1
    let config = YomiageConfig {
        min_digit: 0,
        max_digit: 6,
        length: 10,
        subtractions: 3,
        allow_negative: false,
    };
    assert!(config.check().is_err());

    // max_digit < min_digit
    let config = YomiageConfig {
        min_digit: 3,
        max_digit: 1,
        length: 10,
        subtractions: 3,
        allow_negative: false,
    };
    assert!(config.check().is_err());

    // length < 1
    let config = YomiageConfig {
        min_digit: 3,
        max_digit: 6,
        length: 0,
        subtractions: 3,
        allow_negative: false,
    };
    assert!(config.check().is_err());

    // subtractions > length / 2 without negative answers
    let config = YomiageConfig {
        min_digit: 3,
        max_digit: 6,
        length: 10,
        subtractions: 6,
        allow_negative: false,
    };
    assert!(config.check().is_err());

    // subtractions >= length
    let config = YomiageConfig {
        min_digit: 3,
        max_digit: 6,
        length: 10,
        subtractions: 10,
        allow_negative: true,
    };
    assert!(config.check().is_err());
}
