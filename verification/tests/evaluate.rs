use scalar_eval::expr::{EvalError, Expr};
use scalar_eval::interpret::{apply_operator, eval_scal, lookup_operator, Operator};
use scalar_eval::scalar::Scalar;

fn app(name: &str, args: Vec<Expr>) -> Expr {
    Expr::FnApp(name.to_string(), args)
}

fn lit(text: &str) -> Expr {
    Expr::Real(text.to_string())
}

fn value(e: &Expr) -> f64 {
    f64::from_bits(eval_scal(e).unwrap().to_bits())
}

#[test]
fn integer_literals_widen_exactly() {
    for i in [0, 1, -1, 2, 7, 1000, -123456, 16777217, i32::MAX, i32::MIN, i32::MIN + 1] {
        let got = eval_scal(&Expr::Int(i)).unwrap();
        assert_eq!(got.to_bits(), f64::from(i).to_bits(), "{}", i);
    }
}

#[test]
fn zero_literal_is_positive_zero() {
    assert_eq!(eval_scal(&Expr::Int(0)).unwrap().to_bits(), 0);
}

#[test]
fn real_literals_parse_as_the_nearest_double() {
    for s in ["1.0", "0.0", "3.14", "-2.5", "1e10", "6.02e23", ".5", "5.", "0.1", "1E-5", "+7"] {
        let got = eval_scal(&lit(s)).unwrap();
        assert_eq!(got.to_bits(), s.parse::<f64>().unwrap().to_bits(), "{}", s);
    }
}

#[test]
fn malformed_literal_is_reported_with_its_text() {
    for s in ["", "abc", "1.2.3", "1e", "--1", " 1", "1 ", ".", "e5", "0x10", "1,5", "1e+", "+"] {
        assert_eq!(
            eval_scal(&lit(s)),
            Err(EvalError::MalformedLiteral(s.to_string())),
            "{:?}",
            s
        );
    }
}

#[test]
fn addition_of_integers() {
    assert_eq!(value(&app("+", vec![Expr::Int(2), Expr::Int(3)])), 5.0);
    assert_eq!(value(&app("+", vec![Expr::Int(-2), Expr::Int(2)])), 0.0);
    assert_eq!(
        value(&app("+", vec![Expr::Int(i32::MAX), Expr::Int(i32::MAX)])),
        4294967294.0
    );
}

#[test]
fn subtraction_of_integers() {
    assert_eq!(value(&app("-", vec![Expr::Int(2), Expr::Int(3)])), -1.0);
    assert_eq!(
        value(&app("-", vec![Expr::Int(i32::MIN), Expr::Int(i32::MAX)])),
        -4294967295.0
    );
}

#[test]
fn multiplication_of_integers() {
    assert_eq!(value(&app("*", vec![Expr::Int(6), Expr::Int(7)])), 42.0);
    assert_eq!(
        value(&app("*", vec![Expr::Int(i32::MAX), Expr::Int(i32::MAX)])),
        f64::from(i32::MAX) * f64::from(i32::MAX)
    );
}

#[test]
fn division_follows_ieee() {
    assert_eq!(value(&app("/", vec![Expr::Int(1), Expr::Int(4)])), 0.25);
    assert_eq!(value(&app("/", vec![Expr::Int(1), Expr::Int(3)])), 1.0 / 3.0);
}

#[test]
fn division_by_zero_is_infinite() {
    let e = app("/", vec![lit("1.0"), lit("0.0")]);
    assert_eq!(eval_scal(&e).unwrap().to_bits(), f64::INFINITY.to_bits());
    let e = app("/", vec![lit("-1.0"), lit("0.0")]);
    assert_eq!(eval_scal(&e).unwrap().to_bits(), f64::NEG_INFINITY.to_bits());
    let e = app("/", vec![lit("0.0"), lit("0.0")]);
    assert!(eval_scal(&e).unwrap().is_nan());
}

#[test]
fn sassy_is_product_plus_one() {
    assert_eq!(value(&app("sassy", vec![Expr::Int(2), Expr::Int(3)])), 7.0);
    assert_eq!(value(&app("sassy", vec![lit("0.5"), lit("0.5")])), 1.25);
}

#[test]
fn unknown_operator_is_reported_with_its_name() {
    let e = app("pow", vec![Expr::Int(2), Expr::Int(3)]);
    assert_eq!(eval_scal(&e), Err(EvalError::UnsupportedOperator("pow".to_string())));
    for name in ["", "add", "++", "Sassy", "sassy ", "sass", "\u{00f7}", "sassi"] {
        let e = app(name, vec![Expr::Int(2), Expr::Int(3)]);
        assert_eq!(eval_scal(&e), Err(EvalError::UnsupportedOperator(name.to_string())));
    }
}

#[test]
fn unsupported_node_kinds_fail() {
    assert_eq!(eval_scal(&Expr::Var("x".to_string())), Err(EvalError::UnsupportedNodeKind));
    assert_eq!(eval_scal(&Expr::Str("1.0".to_string())), Err(EvalError::UnsupportedNodeKind));
    let e = app("+", vec![Expr::Int(1), Expr::Var("x".to_string())]);
    assert_eq!(eval_scal(&e), Err(EvalError::UnsupportedNodeKind));
}

#[test]
fn nested_expressions() {
    let e = app("*", vec![app("+", vec![Expr::Int(1), Expr::Int(2)]), Expr::Int(4)]);
    assert_eq!(value(&e), 12.0);
    let e = app(
        "/",
        vec![
            app("-", vec![lit("10.5"), Expr::Int(3)]),
            app("sassy", vec![Expr::Int(1), lit("0.5")]),
        ],
    );
    assert_eq!(value(&e), (10.5 - 3.0) / (1.0 * 0.5 + 1.0));
}

#[test]
fn evaluation_is_repeatable() {
    let e = app("*", vec![app("+", vec![lit("0.1"), lit("0.2")]), Expr::Int(3)]);
    let first = eval_scal(&e);
    let second = eval_scal(&e);
    assert_eq!(first, second);
    assert_eq!(first.unwrap().to_bits(), ((0.1f64 + 0.2f64) * 3.0).to_bits());
    let bad = app("+", vec![lit("x"), Expr::Int(3)]);
    assert_eq!(eval_scal(&bad), eval_scal(&bad));
}

#[test]
fn wrong_argument_count_is_reported() {
    for (name, count) in [("+", 0usize), ("-", 1), ("*", 3), ("/", 1), ("sassy", 4)] {
        let args: Vec<Expr> = (0..count).map(|_| Expr::Int(1)).collect();
        assert_eq!(
            eval_scal(&app(name, args)),
            Err(EvalError::ArityMismatch {
                operator: name.to_string(),
                expected: 2,
                actual: count
            })
        );
    }
}

#[test]
fn first_failing_argument_wins() {
    let e = app("+", vec![lit("bad"), Expr::Var("x".to_string())]);
    assert_eq!(eval_scal(&e), Err(EvalError::MalformedLiteral("bad".to_string())));
    let e = app("+", vec![Expr::Var("x".to_string()), lit("bad")]);
    assert_eq!(eval_scal(&e), Err(EvalError::UnsupportedNodeKind));
    let e = app("pow", vec![Expr::Int(1), lit("bad")]);
    assert_eq!(eval_scal(&e), Err(EvalError::MalformedLiteral("bad".to_string())));
    let e = app("+", vec![app("pow", vec![]), lit("bad"), Expr::Int(1)]);
    assert_eq!(eval_scal(&e), Err(EvalError::UnsupportedOperator("pow".to_string())));
    let e = app("+", vec![Expr::Int(1), Expr::Int(2), lit("bad")]);
    assert_eq!(eval_scal(&e), Err(EvalError::MalformedLiteral("bad".to_string())));
}

#[test]
fn operators_are_found_by_name() {
    assert_eq!(lookup_operator("+"), Some(Operator::Add));
    assert_eq!(lookup_operator("-"), Some(Operator::Sub));
    assert_eq!(lookup_operator("*"), Some(Operator::Mul));
    assert_eq!(lookup_operator("/"), Some(Operator::Div));
    assert_eq!(lookup_operator("sassy"), Some(Operator::Sassy));
    assert_eq!(lookup_operator("%"), None);
    assert_eq!(lookup_operator("sassy!"), None);
    assert_eq!(Operator::Sassy.arity(), 2);
}

#[test]
fn operators_apply_to_values() {
    let two = Scalar::from_i32(2);
    let three = Scalar::from_i32(3);
    let got = apply_operator(&"sassy".to_string(), &vec![two, three]).unwrap();
    assert_eq!(got.to_bits(), 7.0f64.to_bits());
    assert_eq!(Operator::Sub.apply(&vec![two, three]).to_bits(), (-1.0f64).to_bits());
    assert_eq!(
        apply_operator(&"*".to_string(), &vec![two]),
        Err(EvalError::ArityMismatch { operator: "*".to_string(), expected: 2, actual: 1 })
    );
}
