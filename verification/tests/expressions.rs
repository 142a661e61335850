//! End-to-end tests of the expression model, the renderers and the
//! search drivers, over a real and a complex numeric domain.

use formula_finder::model::expr::{Expression, GenerationError, InfixExpression, Operation, Token};
use formula_finder::model::number::Number;
use formula_finder::search::algorithm::{
    candidate, find_acceptable, find_expression, ImprovementTracker, SearchError,
};
use rayon::iter::{ParallelBridge, ParallelIterator};

/// The 64-bit real domain.
#[derive(Clone, Copy, PartialEq, Debug)]
pub struct Real(pub f64);

// The spec_* members are the trait's ghost half: nothing ever calls
// them at run time, so they need no meaningful body here.
impl Number for Real {
    type Dist = f64;

    fn spec_plus(self, _other: Self) -> Self {
        unreachable!()
    }

    fn spec_minus(self, _other: Self) -> Self {
        unreachable!()
    }

    fn spec_times(self, _other: Self) -> Self {
        unreachable!()
    }

    fn spec_divided_by(self, _other: Self) -> Self {
        unreachable!()
    }

    fn spec_negated(self) -> Self {
        unreachable!()
    }

    fn spec_sqrt(self) -> Self {
        unreachable!()
    }

    fn spec_pow(self, _exponent: Self) -> Self {
        unreachable!()
    }

    fn spec_distance(self, _other: Self) -> f64 {
        unreachable!()
    }

    fn spec_dist_lt(_a: f64, _b: f64) -> bool {
        unreachable!()
    }

    fn spec_worst_dist() -> f64 {
        unreachable!()
    }

    fn spec_display(self) -> vstd::seq::Seq<char> {
        unreachable!()
    }

    fn spec_from_small_int(_n: u32) -> Self {
        unreachable!()
    }

    fn plus(self, other: Self) -> Self {
        Real(self.0 + other.0)
    }

    fn minus(self, other: Self) -> Self {
        Real(self.0 - other.0)
    }

    fn times(self, other: Self) -> Self {
        Real(self.0 * other.0)
    }

    fn divided_by(self, other: Self) -> Self {
        Real(self.0 / other.0)
    }

    fn negated(self) -> Self {
        Real(-self.0)
    }

    fn sqrt(&self) -> Self {
        Real(self.0.sqrt())
    }

    fn pow(&self, exponent: &Self) -> Self {
        Real(self.0.powf(exponent.0))
    }

    fn distance(&self, other: &Self) -> f64 {
        (self.0 - other.0).abs()
    }

    fn dist_lt(a: f64, b: f64) -> bool {
        a < b
    }

    fn worst_dist() -> f64 {
        1e100
    }

    fn from_small_int(n: u32) -> Self {
        Real(n as f64)
    }

    fn to_latex(&self) -> String {
        self.0.to_string()
    }
}

/// The complex domain over 64-bit reals.
#[derive(Clone, Copy, PartialEq, Debug)]
pub struct Cplx(pub num::complex::Complex<f64>);

impl Cplx {
    fn new(re: f64, im: f64) -> Self {
        Cplx(num::complex::Complex::new(re, im))
    }
}

// Ghost members again: never called at run time.
impl Number for Cplx {
    type Dist = f64;

    fn spec_plus(self, _other: Self) -> Self {
        unreachable!()
    }

    fn spec_minus(self, _other: Self) -> Self {
        unreachable!()
    }

    fn spec_times(self, _other: Self) -> Self {
        unreachable!()
    }

    fn spec_divided_by(self, _other: Self) -> Self {
        unreachable!()
    }

    fn spec_negated(self) -> Self {
        unreachable!()
    }

    fn spec_sqrt(self) -> Self {
        unreachable!()
    }

    fn spec_pow(self, _exponent: Self) -> Self {
        unreachable!()
    }

    fn spec_distance(self, _other: Self) -> f64 {
        unreachable!()
    }

    fn spec_dist_lt(_a: f64, _b: f64) -> bool {
        unreachable!()
    }

    fn spec_worst_dist() -> f64 {
        unreachable!()
    }

    fn spec_display(self) -> vstd::seq::Seq<char> {
        unreachable!()
    }

    fn spec_from_small_int(_n: u32) -> Self {
        unreachable!()
    }

    fn plus(self, other: Self) -> Self {
        Cplx(self.0 + other.0)
    }

    fn minus(self, other: Self) -> Self {
        Cplx(self.0 - other.0)
    }

    fn times(self, other: Self) -> Self {
        Cplx(self.0 * other.0)
    }

    fn divided_by(self, other: Self) -> Self {
        Cplx(self.0 / other.0)
    }

    fn negated(self) -> Self {
        Cplx(-self.0)
    }

    fn sqrt(&self) -> Self {
        Cplx(self.0.sqrt())
    }

    fn pow(&self, exponent: &Self) -> Self {
        Cplx(self.0.powc(exponent.0))
    }

    fn distance(&self, other: &Self) -> f64 {
        (self.0 - other.0).norm()
    }

    fn dist_lt(a: f64, b: f64) -> bool {
        a < b
    }

    fn worst_dist() -> f64 {
        1e100
    }

    fn from_small_int(n: u32) -> Self {
        Cplx(num::complex::Complex::new(n as f64, 0.0))
    }

    fn to_latex(&self) -> String {
        if self.0.im == 0.0 {
            self.0.re.to_string()
        } else if self.0.re == 0.0 {
            format!("({}i)", self.0.im)
        } else {
            format!("({})", self.0)
        }
    }
}

fn c(v: f64) -> Token<Real> {
    Token::Constant(Real(v))
}

fn op(o: Operation) -> Token<Real> {
    Token::Operation(o)
}

fn expr(tokens: Vec<Token<Real>>) -> Expression<Real> {
    Expression::new(tokens)
}

#[test]
fn arity_of_each_operation() {
    assert_eq!(Operation::Neg.arity(), 1);
    assert_eq!(Operation::Sqrt.arity(), 1);
    assert_eq!(Operation::Sum.arity(), 2);
    assert_eq!(Operation::Sub.arity(), 2);
    assert_eq!(Operation::Mul.arity(), 2);
    assert_eq!(Operation::Div.arity(), 2);
    assert_eq!(Operation::Pow.arity(), 2);
}

#[test]
fn symbols_of_each_operation() {
    assert_eq!(Operation::Neg.repr(), "-");
    assert_eq!(Operation::Sqrt.repr(), "V");
    assert_eq!(Operation::Sum.repr(), "+");
    assert_eq!(Operation::Sub.repr(), "-");
    assert_eq!(Operation::Mul.repr(), "*");
    assert_eq!(Operation::Div.repr(), "/");
    assert_eq!(Operation::Pow.repr(), "^");
    assert_eq!(Operation::Mul.latex(), "\\cdot");
    assert_eq!(Operation::Div.latex(), "/");
}

#[test]
fn round_trip_plain_and_latex_of_sum() {
    let e = expr(vec![c(3.0), c(4.0), op(Operation::Sum)]);
    let tree = e.to_infix();
    assert_eq!(tree.to_string(), "3 + 4");
    assert_eq!(tree.to_latex(), "3 + 4");
}

#[test]
fn power_and_division_never_parenthesize_in_latex() {
    let p = expr(vec![c(2.0), c(3.0), op(Operation::Pow)]);
    assert_eq!(p.to_infix().to_latex(), "{2}^{3}");
    let d = expr(vec![c(2.0), c(3.0), op(Operation::Div)]);
    assert_eq!(d.to_infix().to_latex(), "\\frac{2}{3}");
}

#[test]
fn negation_parenthesizes_a_composite_argument() {
    let e = expr(vec![c(2.0), c(3.0), op(Operation::Sum), op(Operation::Neg)]);
    assert_eq!(e.to_infix().to_latex(), "-(2 + 3)");
}

#[test]
fn negation_of_a_bare_constant_is_not_parenthesized() {
    let e = expr(vec![c(2.0), op(Operation::Neg)]);
    assert_eq!(e.to_infix().to_latex(), "-2");
    assert_eq!(e.to_infix().to_string(), "-2");
}

#[test]
fn square_root_renders_as_a_radical() {
    let e = expr(vec![c(2.0), op(Operation::Sqrt)]);
    assert_eq!(e.to_infix().to_latex(), "\\sqrt{2}");
    let composite = expr(vec![c(2.0), c(3.0), op(Operation::Sum), op(Operation::Sqrt)]);
    assert_eq!(composite.to_infix().to_latex(), "\\sqrt{2 + 3}");
}

#[test]
fn plain_infix_parenthesizes_composite_operands() {
    let e = expr(vec![
        c(2.0),
        c(3.0),
        op(Operation::Sum),
        c(4.0),
        op(Operation::Mul),
    ]);
    assert_eq!(e.to_infix().to_string(), "(2 + 3) * 4");
    assert_eq!(e.to_infix().to_latex(), "(2 + 3) \\cdot 4");
}

#[test]
fn postfix_repr_joins_tokens_with_spaces() {
    let e = expr(vec![c(3.0), c(4.0), op(Operation::Sum)]);
    assert_eq!(e.repr(), "3 4 +");
}

#[test]
fn evaluation_follows_source_order() {
    let e = expr(vec![c(5.0), c(3.0), op(Operation::Sub)]);
    assert_eq!(e.calculate().0, 2.0);
    let p = expr(vec![c(2.0), c(3.0), op(Operation::Pow)]);
    assert_eq!(p.calculate().0, 8.0);
    let d = expr(vec![c(1.0), c(4.0), op(Operation::Div)]);
    assert_eq!(d.calculate().0, 0.25);
}

#[test]
fn evaluation_of_unary_operations() {
    let e = expr(vec![c(9.0), op(Operation::Sqrt), op(Operation::Neg)]);
    assert_eq!(e.calculate().0, -3.0);
}

#[test]
fn division_by_zero_propagates_without_failing() {
    let e = expr(vec![c(1.0), c(0.0), op(Operation::Div)]);
    assert!(e.calculate().0.is_infinite());
    let s = expr(vec![c(2.0), op(Operation::Neg), op(Operation::Sqrt)]);
    assert!(s.calculate().0.is_nan());
}

#[test]
fn real_distance_of_equal_values_is_zero() {
    assert_eq!(Real(3.0).distance(&Real(3.0)), 0.0);
}

#[test]
fn complex_distance_is_the_magnitude_of_the_difference() {
    let a = Cplx::new(3.0, 4.0);
    let b = Cplx::new(0.0, 0.0);
    assert_eq!(a.distance(&b), 5.0);
    assert_eq!(a.distance(&a), 0.0);
}

#[test]
fn small_integers_embed_into_both_domains() {
    assert_eq!(Real::from_small_int(3).0, 3.0);
    assert_eq!(Cplx::from_small_int(2), Cplx::new(2.0, 0.0));
}

#[test]
fn complex_display_forms() {
    assert_eq!(Cplx::new(3.0, 0.0).to_latex(), "3");
    assert_eq!(Cplx::new(0.0, 4.0).to_latex(), "(4i)");
    assert_eq!(Cplx::new(3.0, 4.0).to_latex(), "(3+4i)");
}

#[test]
fn complex_expressions_evaluate_and_render() {
    let i = Token::Constant(Cplx::new(0.0, 1.0));
    let two = Token::Constant(Cplx::new(2.0, 0.0));
    let e = Expression::new(vec![i, two, Token::Operation(Operation::Pow)]);
    let v = e.calculate();
    // i squared is -1.
    assert!(v.distance(&Cplx::new(-1.0, 0.0)) < 1e-12);
    assert_eq!(e.to_infix().to_latex(), "{(1i)}^{2}");
}

fn small_vocabulary() -> Vec<(Token<Real>, i64)> {
    vec![
        (op(Operation::Sum), -1),
        (op(Operation::Sub), -1),
        (op(Operation::Mul), -1),
        (op(Operation::Neg), -1),
        (c(1.0), 1),
        (c(2.0), 1),
        (c(3.0), 1),
    ]
}

#[test]
fn generated_expressions_respect_budgets_and_balance() {
    for _ in 0..200 {
        let choices = small_vocabulary();
        let e = Expression::<Real>::random(&choices).unwrap();
        let tokens = e.tokens();
        // Exactly one evaluation result: a well-formed sequence evaluates
        // without panicking.
        let _ = e.calculate();
        // Finite budgets are both respected and exhausted: each constant
        // exactly once.
        for target in [1.0, 2.0, 3.0] {
            let uses = tokens
                .iter()
                .filter(|t| matches!(t, Token::Constant(Real(v)) if *v == target))
                .count();
            assert!(uses == 1);
        }
        // Every token comes from the vocabulary.
        for t in tokens.iter() {
            match t {
                Token::Constant(Real(v)) => assert!([1.0, 2.0, 3.0].contains(v)),
                Token::Operation(o) => assert!(matches!(
                    o,
                    Operation::Sum | Operation::Sub | Operation::Mul | Operation::Neg
                )),
            }
        }
        // Negation never immediately follows negation.
        for w in tokens.windows(2) {
            let both_neg = matches!(w[0], Token::Operation(Operation::Neg))
                && matches!(w[1], Token::Operation(Operation::Neg));
            assert!(!both_neg);
        }
    }
}

#[test]
fn generation_fails_on_a_mapping_with_no_constants() {
    let choices: Vec<(Token<Real>, i64)> = vec![(op(Operation::Sum), -1)];
    let r = Expression::<Real>::random(&choices);
    assert!(matches!(r, Err(GenerationError::MalformedBudget)));
    assert_eq!(
        GenerationError::MalformedBudget.message(),
        "the availability mapping admits no eligible token"
    );
}

#[test]
fn candidate_measures_its_own_expression() {
    let choices = small_vocabulary();
    let objective = Real(5.0);
    let (e, d) = candidate(&choices, objective).unwrap();
    assert_eq!(d, e.calculate().distance(&objective));
}

fn digits_vocabulary() -> Vec<(Token<Real>, i64)> {
    let mut choices = vec![
        (op(Operation::Sum), -1),
        (op(Operation::Sub), -1),
        (op(Operation::Mul), -1),
        (op(Operation::Div), -1),
        (op(Operation::Pow), -1),
        (op(Operation::Neg), -1),
    ];
    for i in 0..10 {
        choices.push((c(i as f64), 1));
    }
    choices
}

#[test]
fn best_of_batch_returns_an_expression() {
    let choices = digits_vocabulary();
    let objective = Real(std::f64::consts::PI);
    let (e, d, _record) = find_expression(&choices, objective, 1000).unwrap();
    // The reported distance is the returned expression's own distance.
    assert_eq!(d, e.calculate().distance(&objective));
}

fn first_acceptable_vocabulary() -> Vec<(Token<Real>, i64)> {
    let mut choices = vec![
        (op(Operation::Sum), -1),
        (op(Operation::Sub), -1),
        (op(Operation::Div), -1),
        (op(Operation::Mul), -1),
        (op(Operation::Pow), -1),
        (op(Operation::Neg), -1),
        (op(Operation::Sqrt), -1),
    ];
    for i in 1..10 {
        choices.push((c(i as f64), 1));
    }
    choices
}

#[test]
fn first_acceptable_search_meets_the_threshold() {
    // The first-acceptable strategy as designed: candidates drawn in
    // unbounded parallel, the first one below the threshold wins.
    let choices = first_acceptable_vocabulary();
    let objective = Real(std::f64::consts::PI);
    let (e, d) = (0..usize::MAX)
        .par_bridge()
        .map(|_| candidate(&choices, objective).unwrap())
        .find_any(|(_, d)| Real::dist_lt(*d, 1e-4))
        .unwrap();
    assert!(d < 1e-4);
    assert!(e.calculate().distance(&objective) < 1e-4);
}

#[test]
fn first_acceptable_driver_returns_only_acceptable_expressions() {
    // The sequential driver with a generous attempt bound and a coarse
    // threshold: any expression it returns is strictly below it.
    let choices = first_acceptable_vocabulary();
    let objective = Real(std::f64::consts::PI);
    let e = find_acceptable(&choices, objective, 0.5, usize::MAX).unwrap();
    let d = e.calculate().distance(&objective);
    assert!(d < 0.5);
}

#[test]
fn exhausted_attempts_answer_unfulfilled() {
    // The only expression this mapping admits is the constant 1, which
    // never comes within 0.1 of 5.
    let choices: Vec<(Token<Real>, i64)> = vec![(c(1.0), 1)];
    let r = find_acceptable(&choices, Real(5.0), 0.1, 3);
    assert!(matches!(r, Err(SearchError::Unfulfilled)));
}

#[test]
fn search_aborts_on_a_malformed_mapping() {
    let choices: Vec<(Token<Real>, i64)> = vec![(op(Operation::Sum), -1)];
    let r = find_acceptable(&choices, Real(5.0), 0.1, 10);
    assert!(matches!(r, Err(SearchError::MalformedBudget)));
}

#[test]
fn best_of_batch_aborts_on_a_malformed_mapping() {
    let choices: Vec<(Token<Real>, i64)> = vec![(op(Operation::Sqrt), -1)];
    let r = find_expression(&choices, Real(5.0), 10);
    assert!(matches!(r, Err(GenerationError::MalformedBudget)));
}

#[test]
fn tracker_reports_exactly_the_strict_improvements() {
    let mut tracker: ImprovementTracker<Real> = ImprovementTracker::new();
    assert!(tracker.observe(2.0));
    assert!(!tracker.observe(2.0));
    assert!(!tracker.observe(3.0));
    assert!(tracker.observe(1.0));
    // A not-a-number distance is never an improvement.
    assert!(!tracker.observe(f64::NAN));
    assert!(tracker.observe(0.5));
}

#[test]
fn a_first_not_a_number_distance_is_never_reported() {
    let mut tracker: ImprovementTracker<Real> = ImprovementTracker::new();
    assert!(!tracker.observe(f64::NAN));
    // The record is still the seed: a later finite distance reports.
    assert!(tracker.observe(2.0));
}

#[test]
fn streaming_step_reports_improvements_and_stops_on_budget_alone() {
    let mut tracker: ImprovementTracker<Real> = ImprovementTracker::new();
    // A first not-a-number distance: no report, no stop.
    let (report, stop) = tracker.step(f64::NAN, 1e-4, false);
    assert!(!report && !stop);
    // The elapsed budget ends the run even without any improvement.
    let (report, stop) = tracker.step(f64::NAN, 1e-4, true);
    assert!(!report && stop);
    // A finite improvement above the threshold reports and goes on.
    let (report, stop) = tracker.step(0.5, 1e-4, false);
    assert!(report && !stop);
    // An improvement below the threshold reports and stops.
    let (report, stop) = tracker.step(1e-5, 1e-4, false);
    assert!(report && stop);
}

#[test]
fn best_of_batch_on_a_single_possibility_vocabulary() {
    // The only expression this mapping admits is the constant 7.
    let choices: Vec<(Token<Real>, i64)> = vec![(c(7.0), 1)];
    let (e, d, _record) = find_expression(&choices, Real(5.0), 5).unwrap();
    assert_eq!(d, 2.0);
    assert_eq!(e.repr(), "7");
}

#[test]
fn zero_attempts_answer_unfulfilled_at_once() {
    let choices = small_vocabulary();
    let r = find_acceptable(&choices, Real(5.0), 0.1, 0);
    assert!(matches!(r, Err(SearchError::Unfulfilled)));
}

#[test]
fn an_unlimited_constant_closes_at_once() {
    let choices: Vec<(Token<Real>, i64)> = vec![(c(3.0), -1)];
    let e = Expression::<Real>::random(&choices).unwrap();
    assert_eq!(e.repr(), "3");
}

#[test]
fn token_repr_of_constants_and_operations() {
    assert_eq!(c(3.0).repr(), "3");
    assert_eq!(op(Operation::Pow).repr(), "^");
    assert_eq!(c(3.0).arity(), 0);
    assert_eq!(op(Operation::Pow).arity(), 2);
}

#[test]
fn needs_parentheses_follows_the_node_shape() {
    let leaf: InfixExpression<Real> = InfixExpression::Constant(Real(1.0));
    assert!(!leaf.needs_parentheses());
    let root = InfixExpression::Unary(
        Operation::Sqrt,
        Box::new(InfixExpression::Constant(Real(1.0))),
    );
    assert!(!root.needs_parentheses());
    assert!(!root.needs_arg_parentheses());
    let neg = InfixExpression::Unary(
        Operation::Neg,
        Box::new(InfixExpression::Constant(Real(1.0))),
    );
    assert!(neg.needs_parentheses());
    let div = InfixExpression::Binary(
        Operation::Div,
        Box::new(InfixExpression::Constant(Real(1.0))),
        Box::new(InfixExpression::Constant(Real(2.0))),
    );
    assert!(!div.needs_parentheses());
    let sum = InfixExpression::Binary(
        Operation::Sum,
        Box::new(InfixExpression::Constant(Real(1.0))),
        Box::new(InfixExpression::Constant(Real(2.0))),
    );
    assert!(sum.needs_parentheses());
    assert!(sum.needs_arg_parentheses());
}
