use sutra::ast::{FloatLit, Program, Term};
use sutra::bigint::BigInt;
use sutra::builtins::{apply, Applied};
use sutra::engine::{Engine, DEFAULT_FUEL};
use sutra::parser::parse_expr;
use sutra::pretty::show;

fn sym(name: &str, args: Vec<Term>) -> Term {
    Term::app(name, args)
}

fn list(items: Vec<Term>) -> Term {
    let mut t = Term::con("रिक्त");
    for it in items.into_iter().rev() {
        t = sym("युग्म", vec![it, t]);
    }
    t
}

fn s(x: &str) -> Term {
    Term::Str(x.to_string())
}

fn float(x: f64) -> Term {
    Term::Float(FloatLit { bits: x.to_bits(), text: format!("{}", x) })
}

/// Apply and print the result, or "stuck" / "float op".
fn run(name: &str, args: Vec<Term>) -> String {
    match apply(name, &args) {
        Applied::Value(t) => show(&t, true),
        Applied::Stuck => "stuck".to_string(),
        Applied::Float(op, xs) => format!("float {} on {}", op, xs.len()),
    }
}

fn big(x: &str) -> Term {
    Term::Big(BigInt::parse_decimal(x).unwrap())
}

#[test]
fn integer_arithmetic() {
    assert_eq!(run("+", vec![Term::Int(2), Term::Int(12)]), "14");
    assert_eq!(run("-", vec![Term::Int(10), Term::Int(3)]), "7");
    assert_eq!(run("*", vec![Term::Int(5), Term::Int(4)]), "20");
    assert_eq!(run("/", vec![Term::Int(7), Term::Int(2)]), "3");
    assert_eq!(run("/", vec![Term::Int(-7), Term::Int(2)]), "-3");
    assert_eq!(run("%", vec![Term::Int(7), Term::Int(3)]), "1");
    assert_eq!(run("%", vec![Term::Int(-7), Term::Int(3)]), "-1");
}

#[test]
fn overflow_promotes_and_demotes() {
    assert_eq!(run("+", vec![Term::Int(i64::MAX), Term::Int(1)]), "9223372036854775808");
    assert!(matches!(apply("+", &[Term::Int(i64::MAX), Term::Int(1)]), Applied::Value(Term::Big(_))));
    assert_eq!(run("/", vec![Term::Int(i64::MIN), Term::Int(-1)]), "9223372036854775808");
    assert_eq!(run("%", vec![Term::Int(i64::MIN), Term::Int(-1)]), "0");
    assert_eq!(run("neg", vec![Term::Int(i64::MIN)]), "9223372036854775808");
    assert_eq!(run("neg", vec![Term::Int(5)]), "-5");
    // A big result that fits comes back as an Int.
    let back = apply("-", &[big("9223372036854775808"), Term::Int(1)]);
    assert!(matches!(back, Applied::Value(Term::Int(i64::MAX))));
    assert_eq!(run("neg", vec![big("9223372036854775808")]), "-9223372036854775808");
    assert!(matches!(apply("neg", &[big("9223372036854775808")]), Applied::Value(Term::Int(i64::MIN))));
    assert_eq!(
        run("*", vec![big("1000000000000000000000"), Term::Int(2)]),
        "2000000000000000000000"
    );
}

#[test]
fn division_by_zero_is_a_dosha() {
    assert_eq!(run("/", vec![Term::Int(5), Term::Int(0)]), "दोष(\"शून्येन भागः (division by zero)\")");
    assert_eq!(run("%", vec![Term::Int(5), Term::Int(0)]), "दोष(\"शून्येन भागः (modulo by zero)\")");
    assert_eq!(run("/", vec![big("99999999999999999999"), Term::Int(0)]), "दोष(\"शून्येन भागः (division by zero)\")");
}

#[test]
fn floats_are_handed_back() {
    assert_eq!(run("/", vec![float(3.0), float(2.0)]), "float / on 2");
    assert_eq!(run("+", vec![Term::Int(1), float(0.5)]), "float + on 2");
    assert_eq!(run("neg", vec![float(0.5)]), "float neg on 1");
    assert_eq!(run("==", vec![Term::Int(1), float(1.0)]), "float == on 2");
    assert_eq!(run("<", vec![float(1.0), Term::Int(2)]), "float < on 2");
    assert_eq!(run("+", vec![s("a"), float(1.0)]), "stuck");
}

#[test]
fn wrong_arity_or_kind_is_stuck() {
    assert_eq!(run("+", vec![Term::Int(1)]), "stuck");
    assert_eq!(run("+", vec![s("a"), Term::Int(1)]), "stuck");
    assert_eq!(run("दीर्घ", vec![Term::Int(1)]), "stuck");
    assert_eq!(run("यदि", vec![]), "stuck");
    assert_eq!(run("==", vec![Term::Int(1)]), "stuck");
}

#[test]
fn equality_and_order() {
    assert_eq!(run("==", vec![Term::Int(5), Term::Int(5)]), "सत्य");
    assert_eq!(run("!=", vec![Term::Int(3), Term::Int(4)]), "सत्य");
    assert_eq!(run("==", vec![Term::Int(5), big("5")]), "सत्य");
    assert_eq!(run("==", vec![list(vec![Term::Int(1)]), list(vec![Term::Int(1)])]), "सत्य");
    assert_eq!(run("==", vec![s("a"), Term::Int(1)]), "असत्य");
    assert_eq!(run("<", vec![Term::Int(2), Term::Int(3)]), "सत्य");
    assert_eq!(run(">=", vec![Term::Int(2), Term::Int(3)]), "असत्य");
    assert_eq!(run("<=", vec![Term::Int(3), Term::Int(3)]), "सत्य");
    assert_eq!(run("<", vec![s("a"), s("b")]), "सत्य");
    assert_eq!(run(">", vec![s("ab"), s("a")]), "सत्य");
    assert_eq!(run("<", vec![s("a"), Term::Int(1)]), "stuck");
    assert_eq!(run(">", vec![big("30000000000000000000"), big("29999999999999999999")]), "सत्य");
}

#[test]
fn strings_and_lists() {
    assert_eq!(run("++", vec![s("नम"), s("स्ते")]), "\"नमस्ते\"");
    assert_eq!(
        run("++", vec![list(vec![Term::Int(1), Term::Int(2)]), list(vec![Term::Int(3), Term::Int(4)])]),
        "[1, 2, 3, 4]"
    );
    assert_eq!(run("++", vec![list(vec![]), s("x")]), "stuck");
    assert_eq!(run("दीर्घ", vec![s("hello")]), "5");
    assert_eq!(run("दीर्घ", vec![s("नमस्ते")]), "6");
    assert_eq!(run("रूप", vec![Term::Int(120)]), "\"120\"");
    assert_eq!(run("अंश", vec![s("abcdef"), Term::Int(1), Term::Int(3)]), "\"bcd\"");
    assert_eq!(run("अंश", vec![s("abc"), Term::Int(-5), Term::Int(2)]), "\"ab\"");
    assert_eq!(run("अंश", vec![s("abc"), Term::Int(2), Term::Int(99)]), "\"c\"");
    assert_eq!(run("अंश", vec![s("abc"), Term::Int(9), Term::Int(1)]), "\"\"");
    assert_eq!(run("अक्षर", vec![s("अब")]), "[\"अ\", \"ब\"]");
}

fn no_floats(_: String, _: Vec<Term>) -> Option<Term> {
    None
}

fn eval(t: Term) -> String {
    show(&Engine::new(&Program::default(), DEFAULT_FUEL).normalize(&t, &no_floats).term, true)
}

#[test]
fn maps_and_records() {
    assert_eq!(eval_src("{a: 1, b: 2, c: 3}"), "{a: 1, b: 2, c: 3}");
    assert_eq!(eval_src("प्राप्ति({नाम: \"क\"}, \"नाम\")"), "\"क\"");
    assert_eq!(eval_src("{x: 1, y: 2}.y"), "2"); // dot access
    assert_eq!(eval_src("समावेश({a: 1}, \"b\", 2)"), "{a: 1, b: 2}");
    assert_eq!(eval_src("समावेश({a: 1}, \"a\", 9)"), "{a: 9}"); // overwrite
    assert_eq!(eval_src("अस्ति({a: 1}, \"a\")"), "सत्य");
    assert_eq!(eval_src("अस्ति({a: 1}, \"z\")"), "असत्य");
    assert_eq!(eval_src("निष्कास({a: 1, b: 2}, \"a\")"), "{b: 2}");
    assert_eq!(eval_src("कुञ्जिकाः({x: 1, y: 2})"), "[\"x\", \"y\"]");
    assert_eq!(eval_src("दीर्घ({a: 1, b: 2, c: 3})"), "3");
    assert_eq!(eval_src("प्राप्ति({a: 1}, \"z\", 0)"), "0"); // default
    // Maps are value-equal regardless of insertion order.
    assert_eq!(eval_src("{a: 1, b: 2} == {b: 2, a: 1}"), "सत्य");
    // Bilingual.
    assert_eq!(eval_src("get(insert(emptymap, \"k\", 42), \"k\")"), "42");
}

fn read_float(s: String) -> FloatLit {
    let x: f64 = s.parse().unwrap();
    FloatLit { bits: x.to_bits(), text: format!("{}", x) }
}

fn eval_src(src: &str) -> String {
    eval(parse_expr(src, &read_float).expect("should parse"))
}

#[test]
fn map_builtins_directly() {
    let empty = match apply("रिक्तकोश", &[]) {
        Applied::Value(t) => t,
        _ => panic!("empty map"),
    };
    let insert = |m: Term, k: Term, v: Term| match apply("समावेश", &[m, k, v]) {
        Applied::Value(t) => t,
        _ => panic!("insert"),
    };
    let m = insert(empty.clone(), s("b"), Term::Int(2));
    let m = insert(m, s("a"), Term::Int(1));
    let m = insert(m, s("c"), Term::Int(3));
    assert_eq!(show(&m, true), "{a: 1, b: 2, c: 3}");
    let m2 = insert(m.clone(), s("a"), Term::Int(9));
    assert_eq!(show(&m2, true), "{a: 9, b: 2, c: 3}");
    assert_eq!(run("प्राप्ति", vec![m.clone(), s("b")]), "2");
    assert_eq!(run("प्राप्ति", vec![m.clone(), s("z")]), "दोष(\"कुञ्जिका न प्राप्ता (key not found)\")");
    assert_eq!(run("प्राप्ति", vec![m.clone(), s("z"), Term::Int(0)]), "0");
    assert_eq!(run("अस्ति", vec![m.clone(), s("a")]), "सत्य");
    assert_eq!(run("अस्ति", vec![m.clone(), s("z")]), "असत्य");
    assert_eq!(run("निष्कास", vec![m.clone(), s("a")]), "{b: 2, c: 3}");
    assert_eq!(run("निष्कास", vec![m.clone(), s("z")]), "{a: 1, b: 2, c: 3}");
    assert_eq!(run("कुञ्जिकाः", vec![m.clone()]), "[\"a\", \"b\", \"c\"]");
    assert_eq!(run("मूल्यानि", vec![m.clone()]), "[1, 2, 3]");
    assert_eq!(run("दीर्घ", vec![m.clone()]), "3");
    // Insertion order does not matter.
    let n = insert(insert(insert(empty, s("c"), Term::Int(3)), s("b"), Term::Int(2)), s("a"), Term::Int(1));
    assert!(n == m);
    assert_eq!(run("==", vec![n, m]), "सत्य");
}
