use sutra::ast::{FloatLit, Program, Rule, Term};
use sutra::engine::{Engine, Outcome, DEFAULT_FUEL};
use sutra::names::canonical;
use sutra::parser::{parse_expr, parse_program};
use sutra::pretty::{result_line, rule_line, show};
use sutra::samjna::inhabits;

fn sym(name: &str, args: Vec<Term>) -> Term {
    Term::app(name, args)
}

fn c(name: &str) -> Term {
    Term::con(name)
}

fn var(name: &str) -> Term {
    Term::Var(name.to_string())
}

fn num(n: i64) -> Term {
    Term::Int(n)
}

fn s(x: &str) -> Term {
    Term::Str(x.to_string())
}


fn lam(params: &[&str], body: Term) -> Term {
    Term::Lam(params.iter().map(|p| p.to_string()).collect(), Box::new(body))
}

fn app(f: Term, args: Vec<Term>) -> Term {
    Term::App(Box::new(f), args)
}

fn op(o: &str, a: Term, b: Term) -> Term {
    sym(o, vec![a, b])
}

fn float(x: f64) -> Term {
    Term::Float(FloatLit { bits: x.to_bits(), text: format!("{}", x) })
}

/// `let ?x = e in body`, as the parser writes it.
fn let_in(x: &str, e: Term, body: Term) -> Term {
    app(lam(&[x], body), vec![e])
}

fn rule(lhs: Term, rhs: Term) -> Rule {
    Rule { lhs, guard: None, rhs, order: 0 }
}

fn guarded(lhs: Term, guard: Term, rhs: Term) -> Rule {
    Rule { lhs, guard: Some(guard), rhs, order: 0 }
}

fn program(rules: Vec<Rule>) -> Program {
    let mut p = Program::default();
    for (i, mut r) in rules.into_iter().enumerate() {
        r.order = i;
        p.rules.push(r);
    }
    p
}

fn as_f64(t: &Term) -> Option<f64> {
    match t {
        Term::Int(n) => Some(*n as f64),
        Term::Float(f) => Some(f64::from_bits(f.bits)),
        _ => None,
    }
}

/// The floating-point side of the builtins.
fn float_op(op: String, args: Vec<Term>) -> Option<Term> {
    if op == "neg" {
        return Some(float(-as_f64(args.first()?)?));
    }
    let a = as_f64(args.first()?)?;
    let b = as_f64(args.get(1)?)?;
    let truth = |x: bool| c(if x { "सत्य" } else { "असत्य" });
    Some(match op.as_str() {
        "+" => float(a + b),
        "-" => float(a - b),
        "*" => float(a * b),
        "/" => float(a / b),
        "%" => float(a % b),
        "==" => truth(a == b),
        "!=" => truth(a != b),
        "<" => truth(a < b),
        "<=" => truth(a <= b),
        ">" => truth(a > b),
        ">=" => truth(a >= b),
        _ => return None,
    })
}

fn normalize(prog: &Program, t: &Term) -> Outcome {
    Engine::new(prog, DEFAULT_FUEL).normalize(t, &float_op)
}

fn eval_in(prog: &Program, t: Term) -> String {
    show(&normalize(prog, &t).term, true)
}


/// The library rules these scenarios lean on, written out in Sūtra.
const PRELUDE: &str = "
संज्ञा सत्यता := सत्य | असत्य।
संज्ञा सूची(त) := [] | युग्म(त, सूची(त))।
संज्ञा दोष := दोष(?सन्देश)।
संज्ञा युग्मक := (?क, ?ख)।
सूत्र यदि(सत्य, ?a, ?b) -> ?a।
सूत्र यदि(असत्य, ?a, ?b) -> ?b।
सूत्र च(सत्य, ?b) -> ?b।
सूत्र च(असत्य, ?b) -> असत्य।
सूत्र वा(सत्य, ?b) -> सत्य।
सूत्र वा(असत्य, ?b) -> ?b।
सूत्र न(सत्य) -> असत्य।
सूत्र न(असत्य) -> सत्य।
सूत्र क्रमगुणित(?न) -> यदि(?न == 0, 1, ?न * क्रमगुणित(?न - 1))।
सूत्र यमल(?x, ?x) -> समान।
सूत्र शीर्ष([]) -> दोष(\"रिक्ता सूची\")।
सूत्र शीर्ष(?h :: ?t) -> ?h।
सूत्र वर्ग(?x) -> ?x * ?x।
सूत्र द्विगुण(?x) -> ?x * 2।
सूत्र प्रति(?f, []) -> []।
सूत्र प्रति(?f, ?h :: ?t) -> ?f(?h) :: प्रति(?f, ?t)।
सूत्र छन्न(?p, []) -> []।
सूत्र छन्न(?p, ?h :: ?t) -> यदि(?p(?h), ?h :: छन्न(?p, ?t), छन्न(?p, ?t))।
सूत्र संहार(?f, ?a, []) -> ?a।
सूत्र संहार(?f, ?a, ?h :: ?t) -> संहार(?f, ?f(?a, ?h), ?t)।
सूत्र श्रेणी(?a, ?b) -> यदि(?a < ?b, ?a :: श्रेणी(?a + 1, ?b), [])।
सूत्र उलट([], ?acc) -> ?acc।
सूत्र उलट(?h :: ?t, ?acc) -> उलट(?t, ?h :: ?acc)।
सूत्र विपर्यय(?l) -> उलट(?l, [])।
सूत्र दीर्घ([]) -> 0।
सूत्र दीर्घ(?h :: ?t) -> 1 + दीर्घ(?t)।
सूत्र सदस्य(?x, []) -> असत्य।
सूत्र सदस्य(?x, ?h :: ?t) -> वा(?x == ?h, सदस्य(?x, ?t))।
सूत्र प्रथम((?a, ?b)) -> ?a।
सूत्र द्वितीय((?a, ?b)) -> ?b।
";

/// Reads a floating-point literal.
fn read_float(s: String) -> FloatLit {
    let x: f64 = s.parse().unwrap();
    FloatLit { bits: x.to_bits(), text: format!("{}", x) }
}

fn parse(src: &str) -> Program {
    parse_program(src, &read_float).expect("program parses")
}

fn load_prelude() -> Program {
    parse(PRELUDE)
}

fn nf(prog: &Program, expr: &str) -> Term {
    let t = parse_expr(expr, &read_float).expect("should parse");
    normalize(prog, &t).term
}

fn eval_src_in(prog: &Program, expr: &str) -> String {
    show(&nf(prog, expr), true)
}

fn eval_src(expr: &str) -> String {
    eval_src_in(&load_prelude(), expr)
}

fn prelude() -> Program {
    load_prelude()
}

#[test]
fn arithmetic_and_precedence() {
    assert_eq!(eval_src("2 + 3 * 4"), "14");
    assert_eq!(eval_src("(2 + 3) * 4"), "20");
    assert_eq!(eval_src("10 - 3 - 2"), "5"); // left associative
    assert_eq!(eval_src("7 / 2"), "3"); // integer division
    assert_eq!(eval_src("7 % 3"), "1");
    assert_eq!(eval_src("3.0 / 2.0"), "1.5"); // float
    assert_eq!(eval_src("-5 + 8"), "3");
}

#[test]
fn factorial_is_fast_and_exact() {
    assert_eq!(eval_src("क्रमगुणित(20)"), "2432902008176640000");
}

#[test]
fn arbitrary_precision_integers() {
    // 100! — exact, far beyond i64.
    assert_eq!(
        eval_src("क्रमगुणित(100)"),
        "9332621544394415268169923885626670049071596826438162146859296389\
521759999322991560894146397615651828625369792082722375825118521091686400\
0000000000000000000000"
    );
    // Overflow promotes; results that fit demote back to Int.
    assert_eq!(eval_src("9223372036854775807 + 1"), "9223372036854775808");
    assert_eq!(eval_src("क्रमगुणित(21) / क्रमगुणित(20)"), "21");
    assert_eq!(eval_src("क्रमगुणित(30) % 7"), "0");
    // Exact equality where f64 would lie (both round to the same double).
    assert_eq!(eval_src("क्रमगुणित(25) == क्रमगुणित(25) + 1"), "असत्य");
    assert_eq!(eval_src("क्रमगुणित(30) > क्रमगुणित(29)"), "सत्य");
    // Huge literals parse.
    assert_eq!(eval_src("1000000000000000000000 * 2"), "2000000000000000000000");
}

#[test]
fn comparison_and_logic() {
    assert_eq!(eval_src("2 < 3 && 5 == 5"), "सत्य");
    assert_eq!(eval_src("!(1 > 2) || असत्य"), "सत्य");
    assert_eq!(eval_src("3 != 4"), "सत्य");
    assert_eq!(eval_src("\"a\" < \"b\""), "सत्य");
}

#[test]
fn yadi_is_lazy() {
    assert_eq!(eval_src("यदि(सत्य, 7, क्रमगुणित(लूप))"), "7");
    assert_eq!(eval_src("if 3 > 2 then 100 else क्रमगुणित(लूप)"), "100");
}

#[test]
fn lists_literals_and_operators() {
    assert_eq!(eval_src("[1, 2, 3]"), "[1, 2, 3]");
    assert_eq!(eval_src("0 :: [1, 2]"), "[0, 1, 2]");
    assert_eq!(eval_src("[1, 2] ++ [3, 4]"), "[1, 2, 3, 4]");
    assert_eq!(eval_src("विपर्यय([1, 2, 3])"), "[3, 2, 1]");
    assert_eq!(eval_src("दीर्घ([10, 20, 30])"), "3");
    assert_eq!(eval_src("सदस्य(2, [1, 2, 3])"), "सत्य");
}

#[test]
fn higher_order_functions() {
    assert_eq!(eval_src("प्रति((?x) => ?x * ?x, [1, 2, 3, 4])"), "[1, 4, 9, 16]");
    assert_eq!(eval_src("छन्न((?x) => ?x % 2 == 0, श्रेणी(0, 8))"), "[0, 2, 4, 6]");
    assert_eq!(eval_src("संहार((?a, ?b) => ?a + ?b, 0, [1, 2, 3, 4, 5])"), "15");
    // Named function passed as a value.
    assert_eq!(eval_src("प्रति(वर्ग, [1, 2, 3])"), "[1, 4, 9]");
    // Partial application of a builtin used as a function.
    assert_eq!(eval_src("प्रति(योग(10), [1, 2, 3])"), "[11, 12, 13]");
}

#[test]
fn let_lambda_pipe() {
    assert_eq!(eval_src("let ?x = 21 in ?x * 2"), "42");
    assert_eq!(eval_src("((?x, ?y) => ?x + ?y)(3, 4)"), "7");
    assert_eq!(eval_src("[1, 2, 3, 4] |> दीर्घ"), "4");
    assert_eq!(eval_src("5 |> वर्ग |> द्विगुण"), "50");
}

#[test]
fn strings() {
    assert_eq!(eval_src("\"नम\" ++ \"स्ते\""), "\"नमस्ते\"");
    assert_eq!(eval_src("दीर्घ(\"hello\")"), "5");
    assert_eq!(eval_src("रूप(क्रमगुणित(5))"), "\"120\"");
    assert_eq!(eval_src("अंश(\"abcdef\", 1, 3)"), "\"bcd\"");
}

#[test]
fn bilingual_latin_aliases() {
    assert_eq!(eval_src("map((?x) => add(?x, 1), [1, 2, 3])"), "[2, 3, 4]");
    assert_eq!(eval_src("fold((?a, ?b) => mul(?a, ?b), 1, [1, 2, 3, 4])"), "24");
    assert_eq!(eval_src("filter((?x) => gt(?x, 2), [1, 2, 3, 4])"), "[3, 4]");
    // The same through the table directly.
    assert_eq!(canonical("map"), "प्रति");
}

#[test]
fn paratva_later_rule_wins() {
    let src = "\
        सूत्र जाति(?क्ष) -> अन्य।\n\
        सूत्र जाति(अ) -> स्वर।\n";
    let prog = parse(src);
    assert_eq!(eval_src_in(&prog, "जाति(अ)"), "स्वर");
    assert_eq!(eval_src_in(&prog, "जाति(ग)"), "अन्य");
}

#[test]
fn nonlinear_matching() {
    assert_eq!(eval_src("यमल(1 + 0, 1)"), "समान"); // equal after reduction
    assert_eq!(eval_src("यमल(1, 2)"), "यमल(1, 2)"); // unequal ⇒ stuck
}

#[test]
fn failure_model() {
    assert_eq!(eval_src("शीर्ष([])"), "दोष(\"रिक्ता सूची\")");
    assert!(eval_src("5 / 0").starts_with("दोष(")); // error as value
    assert_eq!(eval_src("शीर्ष(5)"), "शीर्ष(5)"); // stuck term
}

#[test]
fn samjna_classification() {
    let prog = load_prelude();
    assert!(inhabits(&prog, &nf(&prog, "क्रमगुणित(5)"), "संख्या"));
    assert!(inhabits(&prog, &nf(&prog, "3.14"), "दशांश"));
    assert!(inhabits(&prog, &nf(&prog, "\"hi\""), "अक्षरमाला"));
    assert!(inhabits(&prog, &nf(&prog, "[1, 2, 3]"), "सूची"));
    assert!(inhabits(&prog, &nf(&prog, "न(सत्य)"), "सत्यता"));
    assert!(inhabits(&prog, &nf(&prog, "शीर्ष([])"), "दोष"));
}

#[test]
fn numeral_printing() {
    let prog = load_prelude();
    let t = nf(&prog, "6 * 7");
    assert_eq!(show(&t, false), "४२"); // Devanagari default
    assert_eq!(show(&t, true), "42"); // ASCII
}

#[test]
fn fuel_limit_stops_nontermination() {
    let prog = parse("सूत्र चक्र(?क) -> चक्र(?क)।");
    let term = parse_expr("चक्र(0)", &read_float).unwrap();
    let out = Engine::new(&prog, 1000).normalize(&term, &float_op);
    assert!(out.out_of_fuel);
}

#[test]
fn call_by_need_shares_work() {
    // मन्द(n,1) = 2^n by binding a recursive call once and using it twice.
    let src = "सूत्र मन्द(?n, ?x) -> यदि(?n == 0, ?x, let ?y = मन्द(?n - 1, ?x) in ?y + ?y)।";
    let mut full = load_prelude();
    full.extend(parse(src));
    assert_eq!(eval_src_in(&full, "मन्द(40, 1)"), "1099511627776"); // 2^40
}

#[test]
fn tuples() {
    assert_eq!(eval_src("(1, 2)"), "(1, 2)");
    assert_eq!(eval_src("(1, \"two\", सत्य)"), "(1, \"two\", सत्य)");
    assert_eq!(eval_src("प्रथम((10, 20))"), "10");
    assert_eq!(eval_src("द्वितीय((10, 20))"), "20");
    // Tuples pattern-match like any constructor.
    let prog = parse("सूत्र अदल((?a, ?b)) -> (?b, ?a)।");
    let mut full = load_prelude();
    full.extend(prog);
    assert_eq!(eval_src_in(&full, "अदल((1, 2))"), "(2, 1)");
    // A pair inhabits युग्मक.
    let p = load_prelude();
    assert!(inhabits(&p, &nf(&p, "(1, 2)"), "युग्मक"));
}

#[test]
fn pattern_guards() {
    // Guarded base case declared last (so paratva tries it first); when its
    // guard fails it falls through to the recursive clause.
    let src = "सूत्र फिबो(?n) -> फिबो(?n - 1) + फिबो(?n - 2)।\n\
               सूत्र फिबो(?n) | ?n < 2 -> ?n।";
    let mut prog = load_prelude();
    prog.extend(parse(src));
    assert_eq!(eval_src_in(&prog, "फिबो(10)"), "55");

    let src2 = "सूत्र चिह्न(?n) -> शून्यम्।\n\
                सूत्र चिह्न(?n) | ?n > 0 -> धनम्।\n\
                सूत्र चिह्न(?n) | ?n < 0 -> ऋणम्।";
    let mut prog2 = load_prelude();
    prog2.extend(parse(src2));
    assert_eq!(eval_src_in(&prog2, "चिह्न(5)"), "धनम्");
    assert_eq!(eval_src_in(&prog2, "चिह्न(-2)"), "ऋणम्");
    assert_eq!(eval_src_in(&prog2, "चिह्न(0)"), "शून्यम्");
}

#[test]
fn normal_forms_are_classified() {
    let prog = prelude();
    assert!(inhabits(&prog, &normalize(&prog, &op("*", num(6), num(7))).term, "संख्या"));
    assert!(inhabits(&prog, &normalize(&prog, &float(3.14)).term, "दशांश"));
    assert!(inhabits(&prog, &normalize(&prog, &s("hi")).term, "अक्षरमाला"));
}

#[test]
fn steps_are_counted_and_values_take_none() {
    let prog = prelude();
    let out = normalize(&prog, &op("+", num(1), op("*", num(2), num(3))));
    assert_eq!(show(&out.term, true), "7");
    assert_eq!(out.steps, 2);
    assert!(!out.out_of_fuel);
    let value = normalize(&prog, &num(5));
    assert_eq!(value.steps, 0);
    // A lambda is not reduced under its binder.
    let l = lam(&["x"], op("+", num(1), num(1)));
    assert_eq!(normalize(&prog, &l).steps, 0);
}

#[test]
fn sharing_reduces_a_bound_argument_once() {
    // ((?y) => ?y + ?y)(2 * 3): the product is computed once, not twice.
    let prog = Program::default();
    let t = let_in("y", op("*", num(2), num(3)), op("+", var("y"), var("y")));
    let out = normalize(&prog, &t);
    assert_eq!(show(&out.term, true), "12");
    // β, the product (once, through the shared cell), the sum.
    assert_eq!(out.steps, 3);
}

#[test]
fn over_and_under_application() {
    let prog = Program::default();
    let add = || lam(&["a", "b"], op("+", var("a"), var("b")));
    // Too few arguments: a smaller lambda.
    assert_eq!(eval_in(&prog, app(add(), vec![num(1)])), "(?b) => 1 + ?b");
    // Too many: the result is applied to the rest.
    let curried = lam(&["a"], lam(&["b"], op("-", var("a"), var("b"))));
    assert_eq!(eval_in(&prog, app(curried, vec![num(10), num(4)])), "6");
}

#[test]
fn floats_come_from_the_callers_operation() {
    let prog = Program::default();
    assert_eq!(eval_in(&prog, op("+", float(0.5), num(1))), "1.5");
    assert_eq!(eval_in(&prog, op("<", float(0.5), float(1.5))), "सत्य");
    // With no floating-point operation the application stays.
    let none = |_: String, _: Vec<Term>| -> Option<Term> { None };
    let out = Engine::new(&prog, DEFAULT_FUEL).normalize(&op("*", float(2.0), float(3.0)), &none);
    assert_eq!(show(&out.term, true), "2.0 * 3.0");
}

#[test]
fn results_and_rules_are_reported() {
    let prog = prelude();
    let input = op("*", num(6), num(7));
    let out = normalize(&prog, &input);
    assert_eq!(result_line(&input, &out, true, false), "6 * 7  ⇒  42");
    assert_eq!(result_line(&input, &out, true, true), "6 * 7  ⇒  42   [1 steps]");
    let loop_prog = program(vec![rule(sym("चक्र", vec![var("क")]), sym("चक्र", vec![var("क")]))]);
    let spin = sym("चक्र", vec![num(0)]);
    let spun = Engine::new(&loop_prog, 3).normalize(&spin, &float_op);
    assert_eq!(result_line(&spin, &spun, true, true), "चक्र(0)  ⇒  चक्र(0)   [3 steps]   ⚠ out of fuel");
    let g = guarded(sym("f", vec![var("n")]), op("<", var("n"), num(2)), var("n"));
    assert_eq!(rule_line(&g, true), "  f(?n) | ?n < 2 -> ?n");
    assert_eq!(rule_line(&rule(c("मुख्य"), num(1)), false), "  मुख्य -> १");
}
