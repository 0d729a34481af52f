use std::collections::{HashMap, HashSet};
use std::vec::IntoIter;

use frequenz_microgrid_formula_engine::grammar::parse_chars;
use frequenz_microgrid_formula_engine::text::{decimal_text, text_with_number};
use frequenz_microgrid_formula_engine::{
    Expr, FormulaEngine, FormulaError, Function, MetricStreamFetcher, NumberLike, Op,
};

/// `f32` as the number type of formulas.
#[derive(Clone, Copy, Debug, PartialEq)]
struct F32(f32);

impl NumberLike for F32 {
    fn spec_plus(self, rhs: Self) -> Self {
        self.plus(rhs)
    }
    fn spec_minus(self, rhs: Self) -> Self {
        self.minus(rhs)
    }
    fn spec_times(self, rhs: Self) -> Self {
        self.times(rhs)
    }
    fn spec_divide(self, rhs: Self) -> Self {
        self.divide(rhs)
    }
    fn spec_negate(self) -> Self {
        self.negate()
    }
    fn spec_less_than(self, rhs: Self) -> bool {
        self.less_than(&rhs)
    }
    fn spec_greater_than(self, rhs: Self) -> bool {
        self.greater_than(&rhs)
    }
    fn plus(self, rhs: Self) -> Self {
        F32(self.0 + rhs.0)
    }
    fn minus(self, rhs: Self) -> Self {
        F32(self.0 - rhs.0)
    }
    fn times(self, rhs: Self) -> Self {
        F32(self.0 * rhs.0)
    }
    fn divide(self, rhs: Self) -> Self {
        F32(self.0 / rhs.0)
    }
    fn negate(self) -> Self {
        F32(-self.0)
    }
    fn less_than(&self, rhs: &Self) -> bool {
        self.0.partial_cmp(&rhs.0) == Some(std::cmp::Ordering::Less)
    }
    fn greater_than(&self, rhs: &Self) -> bool {
        self.0.partial_cmp(&rhs.0) == Some(std::cmp::Ordering::Greater)
    }
    fn spec_parse_number(text: &[char]) -> Result<Self, String> {
        Self::parse_number(text)
    }

    fn parse_number(text: &[char]) -> Result<Self, String> {
        text.iter().collect::<String>().parse::<f32>().map(F32).map_err(|e| format!("{:?}", e))
    }
}

/// Whole numbers, which refuse literals with a fraction or an exponent.
#[derive(Clone, Copy, Debug, PartialEq)]
struct Int(i64);

impl NumberLike for Int {
    fn spec_plus(self, rhs: Self) -> Self {
        self.plus(rhs)
    }
    fn spec_minus(self, rhs: Self) -> Self {
        self.minus(rhs)
    }
    fn spec_times(self, rhs: Self) -> Self {
        self.times(rhs)
    }
    fn spec_divide(self, rhs: Self) -> Self {
        self.divide(rhs)
    }
    fn spec_negate(self) -> Self {
        self.negate()
    }
    fn spec_less_than(self, rhs: Self) -> bool {
        self.less_than(&rhs)
    }
    fn spec_greater_than(self, rhs: Self) -> bool {
        self.greater_than(&rhs)
    }
    fn plus(self, rhs: Self) -> Self {
        Int(self.0.wrapping_add(rhs.0))
    }
    fn minus(self, rhs: Self) -> Self {
        Int(self.0.wrapping_sub(rhs.0))
    }
    fn times(self, rhs: Self) -> Self {
        Int(self.0.wrapping_mul(rhs.0))
    }
    fn divide(self, rhs: Self) -> Self {
        Int(self.0.checked_div(rhs.0).unwrap_or(0))
    }
    fn negate(self) -> Self {
        Int(self.0.wrapping_neg())
    }
    fn less_than(&self, rhs: &Self) -> bool {
        self.0 < rhs.0
    }
    fn greater_than(&self, rhs: &Self) -> bool {
        self.0 > rhs.0
    }
    fn spec_parse_number(text: &[char]) -> Result<Self, String> {
        Self::parse_number(text)
    }

    fn parse_number(text: &[char]) -> Result<Self, String> {
        text.iter().collect::<String>().parse::<i64>().map(Int).map_err(|e| e.to_string())
    }
}

type Stream<T> = IntoIter<Option<T>>;

/// Hands out, for each known component, a stream of the given values.
struct Streams<T> {
    values: HashMap<usize, Vec<Option<T>>>,
    asked: Vec<usize>,
}

impl<T: Clone> Streams<T> {
    fn new(values: Vec<(usize, Vec<Option<T>>)>) -> Self {
        Streams { values: values.into_iter().collect(), asked: Vec::new() }
    }
}

impl<T: Clone> MetricStreamFetcher<T, Stream<T>> for Streams<T> {
    fn spec_fetch(self, id: usize) -> (Self, Option<Stream<T>>) {
        let mut fetcher = self;
        let r = fetcher.from_component_id(id);
        (fetcher, r)
    }

    fn from_component_id(&mut self, id: usize) -> Option<Stream<T>> {
        self.asked.push(id);
        self.values.get(&id).map(|v| v.clone().into_iter())
    }
}

fn engine_f32(formula: &str, values: Vec<(usize, Vec<Option<f32>>)>) -> Result<
    FormulaEngine<F32, Stream<F32>>,
    FormulaError,
> {
    let values = values
        .into_iter()
        .map(|(id, vs)| (id, vs.into_iter().map(|v| v.map(F32)).collect()))
        .collect();
    FormulaEngine::try_new(formula, &mut Streams::new(values))
}

fn value_f32(formula: &str) -> Option<f32> {
    engine_f32(formula, vec![]).unwrap().calculate().unwrap().map(|v| v.0)
}

fn error_f32(formula: &str) -> String {
    match engine_f32(formula, vec![]) {
        Ok(_) => panic!("formula {:?} was accepted", formula),
        Err(e) => e.0,
    }
}

fn value_int(formula: &str, values: Vec<(usize, Vec<Option<i64>>)>) -> Option<i64> {
    let values = values
        .into_iter()
        .map(|(id, vs)| (id, vs.into_iter().map(|v| v.map(Int)).collect()))
        .collect();
    FormulaEngine::<Int, Stream<Int>>::try_new(formula, &mut Streams::new(values))
        .unwrap()
        .calculate()
        .unwrap()
        .map(|v| v.0)
}

// ---------------------------------------------------------------------------
// Operators and functions
// ---------------------------------------------------------------------------

#[test]
fn op_apply_computes_each_operator() {
    assert_eq!(Op::Add.apply(Some(Int(7)), Some(Int(3))), Some(Int(10)));
    assert_eq!(Op::Sub.apply(Some(Int(7)), Some(Int(3))), Some(Int(4)));
    assert_eq!(Op::Mul.apply(Some(Int(7)), Some(Int(3))), Some(Int(21)));
    assert_eq!(Op::Div.apply(Some(Int(7)), Some(Int(3))), Some(Int(2)));
    assert_eq!(Op::Div.apply(Some(F32(1.0)), Some(F32(4.0))), Some(F32(0.25)));
}

#[test]
fn op_apply_needs_both_operands() {
    assert_eq!(Op::Add.apply(None, Some(Int(3))), None);
    assert_eq!(Op::Mul.apply(Some(Int(3)), None), None);
    assert_eq!(Op::Sub.apply::<Int>(None, None), None);
}

#[test]
fn coalesce_gives_first_present_value() {
    assert_eq!(Function::Coalesce.apply(&[None, Some(Int(5)), Some(Int(6))]), Some(Int(5)));
    assert_eq!(Function::Coalesce.apply(&[Some(Int(1)), None]), Some(Int(1)));
    assert_eq!(Function::Coalesce.apply::<Int>(&[None, None]), None);
    assert_eq!(Function::Coalesce.apply::<Int>(&[]), None);
}

#[test]
fn min_and_max_ignore_missing_values() {
    let values = [None, Some(Int(3)), None, Some(Int(-2)), Some(Int(8)), None];
    let present = [Some(Int(3)), Some(Int(-2)), Some(Int(8))];
    assert_eq!(Function::Min.apply(&values), Some(Int(-2)));
    assert_eq!(Function::Min.apply(&values), Function::Min.apply(&present));
    assert_eq!(Function::Max.apply(&values), Some(Int(8)));
    assert_eq!(Function::Max.apply(&values), Function::Max.apply(&present));
    assert_eq!(Function::Min.apply::<Int>(&[None, None]), None);
    assert_eq!(Function::Max.apply::<Int>(&[]), None);
}

#[test]
fn min_and_max_ignore_the_order_of_arguments() {
    let a = [Some(Int(4)), None, Some(Int(-1)), Some(Int(7))];
    let b = [Some(Int(7)), Some(Int(-1)), None, Some(Int(4))];
    assert_eq!(Function::Min.apply(&a), Function::Min.apply(&b));
    assert_eq!(Function::Max.apply(&a), Function::Max.apply(&b));
}

#[test]
fn min_is_not_above_max() {
    let values = [None, Some(Int(3)), Some(Int(-8)), None, Some(Int(5))];
    let lo = Function::Min.apply(&values).unwrap();
    let hi = Function::Max.apply(&values).unwrap();
    assert!(lo.0 <= hi.0);
    let floats = [Some(F32(0.5)), None, Some(F32(-0.25))];
    assert!(Function::Min.apply(&floats).unwrap().0 <= Function::Max.apply(&floats).unwrap().0);
}

#[test]
fn min_and_max_with_incomparable_values() {
    // A value that compares neither smaller nor greater is replaced by the
    // next one, and replaces the running result.
    let nan = F32(f32::NAN);
    assert_eq!(Function::Min.apply(&[Some(nan), Some(F32(1.0))]), Some(F32(1.0)));
    assert!(Function::Min.apply(&[Some(F32(1.0)), Some(nan)]).unwrap().0.is_nan());
    assert_eq!(Function::Max.apply(&[Some(nan), Some(F32(1.0))]), Some(F32(1.0)));
    assert!(Function::Max.apply(&[Some(F32(1.0)), Some(nan)]).unwrap().0.is_nan());
}

#[test]
fn min_keeps_the_earlier_of_equal_values() {
    assert_eq!(Function::Min.apply(&[Some(F32(0.0)), Some(F32(-0.0))]).unwrap().0.to_bits(), (-0.0f32).to_bits());
    assert_eq!(Function::Max.apply(&[Some(F32(0.0)), Some(F32(-0.0))]).unwrap().0.to_bits(), (-0.0f32).to_bits());
}

// ---------------------------------------------------------------------------
// Expressions
// ---------------------------------------------------------------------------

#[test]
fn evaluate_uses_one_value_per_placeholder_in_order() {
    let e: Expr<Int, Stream<Int>> = Expr::Op {
        lhs: Box::new(Expr::Component(4, vec![].into_iter())),
        op: Op::Sub,
        rhs: Box::new(Expr::Function {
            function: Function::Max,
            args: vec![Expr::Component(4, vec![].into_iter()), Expr::Value(Some(Int(1)))],
        }),
    };
    assert_eq!(e.evaluate(&[Some(Int(10)), Some(Int(3))]), Some(Int(7)));
    assert_eq!(e.evaluate(&[Some(Int(10)), None]), Some(Int(9)));
    assert_eq!(e.evaluate(&[None, Some(Int(3))]), None);
}

#[test]
fn calculate_reads_each_stream_once_per_call() {
    let mut e: Expr<Int, Stream<Int>> = Expr::Op {
        lhs: Box::new(Expr::Component(0, vec![Some(Int(1)), Some(Int(2))].into_iter())),
        op: Op::Mul,
        rhs: Box::new(Expr::UnaryMinus(Box::new(Expr::Component(
            1,
            vec![Some(Int(10)), None].into_iter(),
        )))),
    };
    assert_eq!(e.calculate(), Ok(Some(Int(-10))));
    assert_eq!(e.calculate(), Ok(None));
    assert_eq!(e.calculate(), Err(FormulaError("Placeholder out of bounds".to_string())));
}

#[test]
fn calculate_reads_every_stream_even_when_unused() {
    let mut e: Expr<Int, Stream<Int>> = Expr::Function {
        function: Function::Coalesce,
        args: vec![Expr::Value(Some(Int(1))), Expr::Component(0, vec![Some(Int(5))].into_iter())],
    };
    assert_eq!(e.calculate(), Ok(Some(Int(1))));
    assert_eq!(e.calculate(), Err(FormulaError("Placeholder out of bounds".to_string())));
}

#[test]
fn calculate_without_placeholders_always_succeeds() {
    let mut e: Expr<Int, Stream<Int>> = Expr::Op {
        lhs: Box::new(Expr::Value(Some(Int(2)))),
        op: Op::Add,
        rhs: Box::new(Expr::UnaryMinus(Box::new(Expr::Value(Some(Int(5)))))),
    };
    for _ in 0..3 {
        assert_eq!(e.calculate(), Ok(Some(Int(-3))));
    }
}

#[test]
fn expr_components_are_the_placeholder_ids() {
    let e: Expr<Int, Stream<Int>> = Expr::Function {
        function: Function::Coalesce,
        args: vec![
            Expr::Component(3, vec![].into_iter()),
            Expr::Value(None),
            Expr::Component(1, vec![].into_iter()),
            Expr::Component(3, vec![].into_iter()),
        ],
    };
    assert_eq!(e.components(), HashSet::from([1, 3]));
}

#[test]
fn expr_try_new_parses_a_formula() {
    let mut fetcher = Streams::new(vec![(2, vec![Some(Int(5))])]);
    let mut e = Expr::<Int, Stream<Int>>::try_new("#2 * 3", &mut fetcher).unwrap();
    assert_eq!(e.calculate(), Ok(Some(Int(15))));
}

// ---------------------------------------------------------------------------
// The grammar
// ---------------------------------------------------------------------------

#[test]
fn operators_associate_to_the_left() {
    assert_eq!(value_f32("2 - 3 - 4"), Some(-5.0));
    assert_eq!(value_f32("8 / 4 / 2"), Some(1.0));
}

#[test]
fn precedence_of_operators() {
    assert_eq!(value_f32("1 + 2 * 3"), Some(7.0));
    assert_eq!(value_f32("(1 + 2) * 3"), Some(9.0));
    assert_eq!(value_f32("-2 * 3"), Some(-6.0));
    assert_eq!(value_f32("6 / -(1 + 2)"), Some(-2.0));
    assert_eq!(value_f32("2 * 3 - 4 / 2"), Some(4.0));
}

#[test]
fn unary_minus_and_signed_literals() {
    assert_eq!(value_f32("1 - -1"), Some(2.0));
    assert_eq!(value_f32("--1"), Some(1.0));
    assert_eq!(value_f32("+1"), Some(1.0));
    assert_eq!(value_f32("1 + +1"), Some(2.0));
    assert_eq!(value_f32("- 1"), Some(-1.0));
}

#[test]
fn number_literals() {
    assert_eq!(value_f32("1e2"), Some(100.0));
    assert_eq!(value_f32("2.5E-1"), Some(0.25));
    assert_eq!(value_f32("3."), Some(3.0));
    assert_eq!(value_f32("0.5e+1"), Some(5.0));
}

#[test]
fn whitespace_between_tokens() {
    assert_eq!(value_f32(" \t( 1+2 )\n*3 "), Some(9.0));
    assert_eq!(value_f32("MIN ( 4 , 2 )"), Some(2.0));
    assert_eq!(value_f32("MAX(4,2)"), Some(4.0));
}

#[test]
fn nested_functions() {
    assert_eq!(value_f32("MAX(1, MIN(5, 3), COALESCE(2))"), Some(3.0));
}

#[test]
fn syntax_errors_name_the_position() {
    assert_eq!(error_f32("1 +"), "Invalid formula: unexpected input at position 3");
    assert_eq!(error_f32(""), "Invalid formula: unexpected input at position 0");
    assert_eq!(error_f32("1 2"), "Invalid formula: unexpected input at position 2");
    assert_eq!(error_f32("MIN()"), "Invalid formula: unexpected input at position 4");
    assert_eq!(error_f32("MINX(1)"), "Invalid formula: unexpected input at position 3");
    assert_eq!(error_f32("(1 + 2"), "Invalid formula: unexpected input at position 6");
    assert_eq!(error_f32("# 1"), "Invalid formula: unexpected input at position 0");
    assert_eq!(error_f32("1e"), "Invalid formula: unexpected input at position 1");
    assert_eq!(error_f32("- - 1"), "Invalid formula: unexpected input at position 2");
    assert_eq!(error_f32("MAX(1 2)"), "Invalid formula: unexpected input at position 6");
}

#[test]
fn fully_parenthesised_formulas_read_back_as_written() {
    assert_eq!(value_f32("((1)-(2))-(3)"), Some(-4.0));
    assert_eq!(value_f32("(1)-((2)-(3))"), Some(2.0));
    assert_eq!(value_f32("(1)+((2)*(3))"), Some(7.0));
    assert_eq!(value_f32("((1)+(2))*(3)"), Some(9.0));
    assert_eq!(value_f32("-(-(1))"), Some(1.0));
    assert_eq!(value_f32("MIN((4),(-(2)))"), Some(-2.0));
}

#[test]
fn parse_chars_reports_the_position() {
    let text: Vec<char> = "1 + * 2".chars().collect();
    assert!(matches!(parse_chars(&text), Err(4)));
    let text: Vec<char> = "1 + 2".chars().collect();
    assert!(parse_chars(&text).is_ok());
}

#[test]
fn syntax_errors_come_before_any_fetch() {
    let mut fetcher = Streams::<Int>::new(vec![(0, vec![Some(Int(1))])]);
    assert!(FormulaEngine::<Int, Stream<Int>>::try_new("#0 +", &mut fetcher).is_err());
    assert!(fetcher.asked.is_empty());
}

#[test]
fn invalid_number_error() {
    let r = FormulaEngine::<Int, Stream<Int>>::try_new("1.5 + 1", &mut Streams::new(vec![]));
    assert_eq!(
        r.err(),
        Some(FormulaError("Invalid number: invalid digit found in string".to_string()))
    );
}

#[test]
fn too_large_component_id_error() {
    assert_eq!(
        error_f32("#123456789012345678901234567890"),
        "Invalid component id: number too large to fit in target type"
    );
}

#[test]
fn unknown_component_error() {
    assert_eq!(error_f32("1 + #42"), "Unknown component id: 42");
}

#[test]
fn failed_builds_ask_the_fetcher_as_written() {
    let mut fetcher = Streams::<Int>::new(vec![]);
    let r = FormulaEngine::<Int, Stream<Int>>::try_new("#7", &mut fetcher);
    assert_eq!(r.err(), Some(FormulaError("Unknown component id: 7".to_string())));
    assert_eq!(fetcher.asked, vec![7]);

    let mut fetcher = Streams::<Int>::new(vec![]);
    let r = FormulaEngine::<Int, Stream<Int>>::try_new("#18446744073709551616", &mut fetcher);
    assert_eq!(
        r.err(),
        Some(FormulaError(
            "Invalid component id: number too large to fit in target type".to_string()
        ))
    );
    assert!(fetcher.asked.is_empty());

    let mut fetcher = Streams::<Int>::new(vec![(1, vec![Some(Int(1))])]);
    let r = FormulaEngine::<Int, Stream<Int>>::try_new("MIN(1.5, #1) + #2", &mut fetcher);
    assert_eq!(
        r.err(),
        Some(FormulaError("Invalid number: invalid digit found in string".to_string()))
    );
    assert_eq!(fetcher.asked, vec![2]);
}

#[test]
fn builds_from_equal_fetchers_agree() {
    let values = vec![(0, vec![Some(Int(4))]), (1, vec![Some(Int(6))])];
    let mut f1 = Streams::new(values.clone());
    let mut f2 = Streams::new(values);
    let mut e1 = FormulaEngine::<Int, Stream<Int>>::try_new("MAX(#0, 5) - #1", &mut f1).unwrap();
    let mut e2 = FormulaEngine::<Int, Stream<Int>>::try_new("MAX(#0, 5) - #1", &mut f2).unwrap();
    assert_eq!(f1.asked, f2.asked);
    assert_eq!(e1.components(), e2.components());
    assert_eq!(e1.calculate(), e2.calculate());

    let mut f1 = Streams::<Int>::new(vec![]);
    let mut f2 = Streams::<Int>::new(vec![]);
    let r1 = FormulaEngine::<Int, Stream<Int>>::try_new("#3 + 2.5", &mut f1);
    let r2 = FormulaEngine::<Int, Stream<Int>>::try_new("#3 + 2.5", &mut f2);
    assert_eq!(r1.err(), r2.err());
    assert_eq!(f1.asked, f2.asked);
}

#[test]
fn leftmost_error_is_reported() {
    let mut fetcher = Streams::<Int>::new(vec![]);
    let r = FormulaEngine::<Int, Stream<Int>>::try_new("#7 + #8", &mut fetcher);
    assert_eq!(r.err(), Some(FormulaError("Unknown component id: 7".to_string())));
    // Both operands are built, as the component of each is fetched.
    assert_eq!(fetcher.asked, vec![7, 8]);

    let mut fetcher = Streams::<Int>::new(vec![]);
    let r = FormulaEngine::<Int, Stream<Int>>::try_new("MIN(#7, #8)", &mut fetcher);
    assert_eq!(r.err(), Some(FormulaError("Unknown component id: 7".to_string())));
    // The arguments of a function stop at the first error.
    assert_eq!(fetcher.asked, vec![7]);
}

#[test]
fn too_large_id_error_comes_first() {
    let mut fetcher = Streams::<Int>::new(vec![(1, vec![Some(Int(1))])]);
    let r = FormulaEngine::<Int, Stream<Int>>::try_new("#99999999999999999999999 + #1", &mut fetcher);
    assert_eq!(
        r.err(),
        Some(FormulaError(
            "Invalid component id: number too large to fit in target type".to_string()
        ))
    );
    assert_eq!(fetcher.asked, vec![1]);

    let mut fetcher = Streams::<Int>::new(vec![(1, vec![Some(Int(1))])]);
    let r = FormulaEngine::<Int, Stream<Int>>::try_new("MAX(#99999999999999999999999, #1)", &mut fetcher);
    assert!(r.is_err());
    assert!(fetcher.asked.is_empty());
}

// ---------------------------------------------------------------------------
// The engine
// ---------------------------------------------------------------------------

#[test]
fn engine_components_are_the_written_ids() {
    let fe = engine_f32(
        "MAX(#3, #1) + #3",
        vec![(1, vec![]), (3, vec![])],
    )
    .unwrap();
    assert_eq!(fe.components(), &HashSet::from([1, 3]));
}

#[test]
fn missing_value_propagates_through_arithmetic() {
    assert_eq!(value_int("#0 * 2 + 1", vec![(0, vec![None])]), None);
    assert_eq!(value_int("#0 * 2 + 1", vec![(0, vec![Some(4)])]), Some(9));
    assert_eq!(value_int("-#0", vec![(0, vec![None])]), None);
}

#[test]
fn engine_calculates_again_with_the_next_values() {
    let mut fe = engine_f32("#0 - #1", vec![(0, vec![Some(5.0), Some(1.0)]), (1, vec![Some(2.0), None])])
        .unwrap();
    assert_eq!(fe.calculate().unwrap().map(|v| v.0), Some(3.0));
    assert_eq!(fe.calculate().unwrap().map(|v| v.0), None);
    assert_eq!(fe.calculate().err(), Some(FormulaError("Placeholder out of bounds".to_string())));
}

#[test]
fn engine_coalesce_min_max() {
    assert_eq!(
        value_int("COALESCE(#0, #1, 7)", vec![(0, vec![None]), (1, vec![Some(3)])]),
        Some(3)
    );
    assert_eq!(value_int("COALESCE(#0, #1)", vec![(0, vec![None]), (1, vec![None])]), None);
    assert_eq!(value_int("MIN(#0, #1, 7)", vec![(0, vec![None]), (1, vec![Some(9)])]), Some(7));
    assert_eq!(value_int("MAX(#0, #1)", vec![(0, vec![None]), (1, vec![None])]), None);
}

// ---------------------------------------------------------------------------
// Text
// ---------------------------------------------------------------------------

#[test]
fn decimal_text_of_numbers() {
    assert_eq!(decimal_text(0), "0");
    assert_eq!(decimal_text(7), "7");
    assert_eq!(decimal_text(10), "10");
    assert_eq!(decimal_text(1234567890), "1234567890");
    assert_eq!(decimal_text(usize::MAX), usize::MAX.to_string());
    assert_eq!(text_with_number("id ", 42), "id 42");
}
