use crate::config::Config;
use crate::generate::{generate, is_drill};
use crate::sums::{abs, total};
use crate::text::{decimal, magnitude, push_decimal};
use vstd::prelude::*;

verus! {

/// A generated drill: its terms in dictation order, their sum, and the
/// configuration it was made from.
#[derive(Debug, Clone)]
pub struct Problem {
    pub problem: Vec<i128>,
    pub answer: i128,
    pub config: Config,
}

/// The name under which the drill was first published.
pub type YomiageProblem = Problem;

/// The announcement of the drill's digit range, length and kind.
pub open spec fn meta_text(c: Config) -> Seq<char> {
    decimal(c.min_digit as nat) + "桁から"@ + decimal(c.max_digit as nat) + "桁、"@ + decimal(
        c.length as nat,
    ) + "口、"@ + if c.subtractions == 0 {
        "加算"@
    } else {
        "加減算"@
    } + "です。ねがいましては。"@
}

/// The phrase that opens term `i` where the sign changes from the term
/// before (the drill starts as if after an addition).
pub open spec fn sign_marker(s: Seq<i128>, i: int) -> Seq<char> {
    let was_negative = i > 0 && s[i - 1] < 0;
    if (s[i] < 0) == was_negative {
        Seq::empty()
    } else if s[i] < 0 {
        "引いては"@
    } else {
        "加えて"@
    }
}

/// The dictation of term `i`: the last term closes the drill.
pub open spec fn term_phrase(s: Seq<i128>, i: int) -> Seq<char> {
    sign_marker(s, i) + decimal(abs(s[i])) + "円"@ + if i + 1 == s.len() {
        "では。"@
    } else {
        "なり、"@
    }
}

/// The dictation of the first `k` terms.
pub open spec fn script_prefix(s: Seq<i128>, k: nat) -> Seq<char>
    decreases k,
{
    if k == 0 {
        Seq::empty()
    } else {
        script_prefix(s, (k - 1) as nat) + term_phrase(s, k - 1)
    }
}

/// The dictation of all the terms.
pub open spec fn problem_text(s: Seq<i128>) -> Seq<char> {
    script_prefix(s, s.len())
}

/// The announcement of the answer, with its sign.
pub open spec fn answer_text(a: i128) -> Seq<char> {
    "その答え、"@ + if a >= 0 {
        Seq::empty()
    } else {
        "マイナス"@
    } + decimal(abs(a)) + "円です。"@
}

impl Problem {
    /// The terms form a drill for the configuration, which is valid, and
    /// the answer is their sum.
    pub open spec fn wf(&self) -> bool {
        &&& self.config.is_valid()
        &&& is_drill(self.config, self.problem@)
        &&& self.answer == total(self.problem@)
    }

    /// Validates the configuration, then generates a drill for it.
    pub fn new(config: Config) -> (r: Result<Problem, String>)
        requires
            config.is_valid() ==> config.fits_i128(),
        ensures
            r is Ok <==> config.is_valid(),
            r matches Err(e) ==> config.rejection() == Some(e@),
            r matches Ok(p) ==> p.config == config && p.wf(),
    {
        match config.check() {
            Err(e) => {
                return Err(e);
            },
            Ok(()) => {},
        }
        let problem = generate(config);
        let ghost top: int = crate::digits::pow10(config.max_digit as nat) - 1;
        proof {
            crate::digits::lemma_pow10_positive(config.max_digit as nat);
            assert forall|k: int| 0 <= k < problem.len() implies -top <= #[trigger] problem@[k]
                <= top by {
                crate::digits::lemma_bound_of_digit_length(
                    abs(problem@[k]),
                    config.max_digit as nat,
                );
            }
            assert(problem.len() * top <= i128::MAX) by (nonlinear_arith)
                requires
                    top * config.length <= i128::MAX,
                    problem.len() == config.length,
            ;
        }
        let answer = crate::sums::sum_terms(&problem, 0, problem.len(), Ghost(top));
        assert(problem@.subrange(0, problem.len() as int) =~= problem@);
        Ok(Problem { problem, answer, config })
    }

    /// Announces the digit range, the number of terms and whether there
    /// are subtractions.
    pub fn script_meta(&self) -> (r: String)
        ensures
            r@ == meta_text(self.config),
    {
        let mut s = String::new();
        push_decimal(&mut s, self.config.min_digit as u128);
        s.append("桁から");
        push_decimal(&mut s, self.config.max_digit as u128);
        s.append("桁、");
        push_decimal(&mut s, self.config.length as u128);
        s.append("口、");
        if self.config.subtractions == 0 {
            s.append("加算");
        } else {
            s.append("加減算");
        }
        s.append("です。ねがいましては。");
        assert(s@ =~= meta_text(self.config));
        s
    }

    /// Dictates the terms: each amount with its unit, a marker where the
    /// sign changes, and a closing phrase after the last one.
    pub fn script_problem(&self) -> (r: String)
        ensures
            r@ == problem_text(self.problem@),
    {
        let ghost s = self.problem@;
        let n = self.problem.len();
        let mut script = String::new();
        let mut prev_negative = false;
        let mut i: usize = 0;
        while i < n
            invariant
                s == self.problem@,
                n == s.len(),
                i <= n,
                prev_negative == (i > 0 && s[i - 1] < 0),
                script@ == script_prefix(s, i as nat),
            decreases n - i,
        {
            let ghost before = script@;
            let num = self.problem[i];
            let negative = num < 0;
            if negative != prev_negative {
                if negative {
                    script.append("引いては");
                } else {
                    script.append("加えて");
                }
            }
            let ghost marked = script@;
            assert(marked =~= before + sign_marker(s, i as int));
            push_decimal(&mut script, magnitude(num));
            script.append("円");
            if i + 1 == n {
                script.append("では。");
            } else {
                script.append("なり、");
            }
            assert(script@ =~= before + term_phrase(s, i as int));
            prev_negative = negative;
            i = i + 1;
        }
        script
    }

    /// Announces the answer, with "マイナス" before a negative one.
    pub fn script_answer(&self) -> (r: String)
        ensures
            r@ == answer_text(self.answer),
    {
        let mut s = String::from_str("その答え、");
        if self.answer < 0 {
            s.append("マイナス");
        }
        push_decimal(&mut s, magnitude(self.answer));
        s.append("円です。");
        assert(s@ =~= answer_text(self.answer));
        s
    }
}

} // verus!
