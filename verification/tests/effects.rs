use sutra::ast::{FloatLit, Program, Term};
use sutra::parser::parse_expr;
use sutra::effect::{
    args_value, continue_with, env_missing, failure, line_value, printed, random_below, request_of,
    unit, xorshift, Request,
};
use sutra::engine::{Engine, DEFAULT_FUEL};
use sutra::pretty::show;

fn sym(name: &str, args: Vec<Term>) -> Term {
    Term::app(name, args)
}

fn s(x: &str) -> Term {
    Term::Str(x.to_string())
}

fn no_floats(_: String, _: Vec<Term>) -> Option<Term> {
    None
}

/// The pure part of the effect runtime: normalise, then yield or bind.
fn run_pure(engine: &Engine, action: Term) -> Term {
    let nf = engine.normalize(&action, &no_floats).term;
    match request_of(&nf) {
        Request::Yield(v) => v,
        Request::Bind(m, k) => {
            let r = run_pure(engine, m);
            run_pure(engine, continue_with(k, r))
        }
        _ => panic!("an effect that needs the world"),
    }
}

#[test]
fn effect_as_data_runs_purely() {
    // बन्ध(शुद्ध(10), (?x) => शुद्ध(?x + 5)) yields 15 with no I/O.
    let prog = Program::default();
    let engine = Engine::new(&prog, DEFAULT_FUEL);
    let k = Term::Lam(
        vec!["x".to_string()],
        Box::new(sym("शुद्ध", vec![sym("+", vec![Term::Var("x".to_string()), Term::Int(5)])])),
    );
    let action = sym("बन्ध", vec![sym("शुद्ध", vec![Term::Int(10)]), k]);
    assert_eq!(show(&run_pure(&engine, action), true), "15");
}

#[test]
fn requests_name_the_effect() {
    assert!(matches!(request_of(&sym("पठन", vec![])), Request::ReadLine));
    assert!(matches!(request_of(&sym("काल", vec![])), Request::Time));
    assert!(matches!(request_of(&sym("प्राचलाः", vec![])), Request::Args));
    match request_of(&sym("सञ्चिकापाठ", vec![s("a.txt")])) {
        Request::ReadFile(p) => assert_eq!(p, "a.txt"),
        _ => panic!("expected a file read"),
    }
    match request_of(&sym("सञ्चिकालेख", vec![s("a.txt"), s("नमस्ते")])) {
        Request::WriteFile(p, c) => assert_eq!((p.as_str(), c.as_str()), ("a.txt", "नमस्ते")),
        _ => panic!("expected a file write"),
    }
    match request_of(&sym("यादृच्छिक", vec![Term::Int(6)])) {
        Request::Random(n) => assert_eq!(n, 6),
        _ => panic!("expected a random number"),
    }
    match request_of(&sym("मुद्रण", vec![s("hi")])) {
        Request::Print(t) => assert_eq!(show(&t, true), "\"hi\""),
        _ => panic!("expected a print"),
    }
}

#[test]
fn malformed_world_actions_yield_errors() {
    let yielded = |t: Term| match request_of(&t) {
        Request::Yield(v) => show(&v, true),
        _ => panic!("expected a value"),
    };
    assert_eq!(
        yielded(sym("सञ्चिकापाठ", vec![Term::Int(1)])),
        "दोष(\"सञ्चिकापाठ: path must be a string\")"
    );
    assert_eq!(
        yielded(sym("सञ्चिकालेख", vec![s("p"), Term::Int(1)])),
        "दोष(\"सञ्चिकालेख: expects (path, contents) strings\")"
    );
    assert_eq!(
        yielded(sym("पर्यावरण", vec![Term::Int(1)])),
        "दोष(\"पर्यावरण: name must be a string\")"
    );
    assert_eq!(
        yielded(sym("यादृच्छिक", vec![Term::Int(0)])),
        "दोष(\"यादृच्छिक: argument must be a positive integer\")"
    );
    // Not an action: the value itself.
    assert_eq!(yielded(Term::Int(7)), "7");
}

#[test]
fn world_results_as_terms() {
    assert_eq!(show(&line_value("नमस्ते\r\n"), true), "\"नमस्ते\"");
    assert_eq!(show(&line_value("a\n\n"), true), "\"a\"");
    assert_eq!(show(&args_value(&vec!["a".to_string(), "b".to_string()]), true), "[\"a\", \"b\"]");
    assert_eq!(show(&failure("सञ्चिकापाठ", "not found"), true), "दोष(\"सञ्चिकापाठ: not found\")");
    assert_eq!(show(&env_missing("HOME"), true), "दोष(\"पर्यावरण: HOME अनुपलब्ध\")");
    assert_eq!(show(&unit(), true), "एकक");
    assert_eq!(printed(&s("raw"), true), "raw");
    assert_eq!(printed(&Term::Int(42), false), "४२");
}

#[test]
fn random_numbers_come_from_xorshift() {
    assert_eq!(xorshift(1), 1082269761);
    assert_eq!(xorshift(1082269761), 1152992998833853505);
    assert_eq!(show(&random_below(1082269761, 10), true), "1");
    assert_eq!(show(&random_below(17, 5), true), "2");
}

fn read_float(s: String) -> FloatLit {
    let x: f64 = s.parse().unwrap();
    FloatLit { bits: x.to_bits(), text: format!("{}", x) }
}

#[test]
fn do_notation() {
    // do { ?x <- शुद्ध(10); ?y <- शुद्ध(5); शुद्ध(?x * ?y) } ⇒ 50, no I/O.
    let prog = Program::default();
    let engine = Engine::new(&prog, DEFAULT_FUEL);
    let action =
        parse_expr("क्रिया { ?x <- शुद्ध(10); ?y <- शुद्ध(5); शुद्ध(?x * ?y) }", &read_float).unwrap();
    assert_eq!(show(&run_pure(&engine, action), true), "50");
    let seqd = parse_expr("do { शुद्ध(1); शुद्ध(2); }", &read_float).unwrap();
    assert_eq!(show(&seqd, true), "अनुक्रम(शुद्ध(1), शुद्ध(2))");
}
