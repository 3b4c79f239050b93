use sutra::ast::{FloatLit, Program, Rule, Samjna, Term};
use sutra::bigint::BigInt;
use sutra::engine::{Engine, DEFAULT_FUEL};
use sutra::pretty::show;

fn sym(name: &str, args: Vec<Term>) -> Term {
    Term::app(name, args)
}

fn var(name: &str) -> Term {
    Term::Var(name.to_string())
}

fn list(items: Vec<Term>) -> Term {
    let mut t = Term::con("रिक्त");
    for it in items.into_iter().rev() {
        t = sym("युग्म", vec![it, t]);
    }
    t
}

fn float(x: f64) -> Term {
    Term::Float(FloatLit { bits: x.to_bits(), text: format!("{}", x) })
}

fn rule(lhs: Term, rhs: Term, order: usize) -> Rule {
    Rule { lhs, guard: None, rhs, order }
}

#[test]
fn show_numbers() {
    assert_eq!(show(&Term::Int(-7), true), "-7");
    assert_eq!(show(&Term::Int(i64::MIN), true), "-9223372036854775808");
    let big = BigInt::parse_decimal("9223372036854775808").unwrap();
    assert_eq!(show(&Term::Big(big), false), "९२२३३७२०३६८५४७७५८०८");
    assert_eq!(show(&float(1.5), true), "1.5");
    assert_eq!(show(&float(7.0), true), "7.0");
    assert_eq!(show(&float(7.0), false), "७.०");
    assert_eq!(show(&float(f64::INFINITY), true), "inf");
    assert_eq!(show(&float(f64::NAN), true), "NaN");
}

#[test]
fn show_strings_and_variables() {
    assert_eq!(show(&Term::Str("नमस्ते 12".into()), false), "\"नमस्ते 12\"");
    assert_eq!(show(&var("x"), true), "?x");
}

#[test]
fn show_lists_use_brackets() {
    let t = list(vec![Term::Int(1), Term::Int(2), Term::Int(3)]);
    assert_eq!(show(&t, true), "[1, 2, 3]");
    assert_eq!(show(&t, false), "[१, २, ३]");
    assert_eq!(show(&Term::con("रिक्त"), true), "[]");
    // An improper list prints as ordinary applications.
    let improper = sym("युग्म", vec![Term::Int(1), Term::Int(2)]);
    assert_eq!(show(&improper, true), "युग्म(1, 2)");
    let nested = list(vec![list(vec![]), Term::Str("a".into())]);
    assert_eq!(show(&nested, true), "[[], \"a\"]");
}

#[test]
fn show_operators_infix() {
    let t = sym("+", vec![Term::Int(1), sym("*", vec![var("x"), Term::Int(2)])]);
    assert_eq!(show(&t, true), "1 + ?x * 2");
    let unary = sym("-", vec![Term::Int(1)]);
    assert_eq!(show(&unary, true), "-(1)");
    assert_eq!(show(&sym("f", vec![]), true), "f");
    assert_eq!(show(&sym("f", vec![Term::Int(1), var("y")]), true), "f(1, ?y)");
}

#[test]
fn show_lambdas_and_applications() {
    let lam = Term::Lam(vec!["x".into(), "y".into()], Box::new(sym("+", vec![var("x"), var("y")])));
    assert_eq!(show(&lam, true), "(?x, ?y) => ?x + ?y");
    let app = Term::App(Box::new(lam.clone()), vec![Term::Int(3), Term::Int(4)]);
    assert_eq!(show(&app, true), "((?x, ?y) => ?x + ?y)(3, 4)");
    let app2 = Term::App(Box::new(var("f")), vec![]);
    assert_eq!(show(&app2, true), "?f()");
}

#[test]
fn show_maps_with_bare_string_keys() {
    let m = Term::Kosha(vec![
        (Term::Str("नाम".into()), Term::Str("पाणिनि".into())),
        (Term::Int(2), Term::Int(3959)),
    ]);
    assert_eq!(show(&m, true), "{नाम: \"पाणिनि\", 2: 3959}");
    assert_eq!(show(&Term::Kosha(vec![]), true), "{}");
}

#[test]
fn constructors_and_atoms() {
    let c = Term::con("सत्य");
    assert!(c == sym("सत्य", vec![]));
    assert!(!c.is_value_atom());
    assert!(Term::Int(1).is_value_atom());
    assert!(Term::Str("s".into()).is_value_atom());
    assert!(float(0.5).is_value_atom());
    assert!(!Term::Big(BigInt::zero()).is_value_atom());
    assert!(!var("x").is_value_atom());
}

#[test]
fn term_equality_is_structural() {
    let a = sym("f", vec![Term::Int(1), list(vec![var("x")])]);
    assert!(a == a.clone());
    assert!(a != sym("f", vec![Term::Int(2), list(vec![var("x")])]));
    assert!(Term::Int(5) != Term::Big(BigInt::from_i64(5)));
    assert!(float(0.0) == float(-0.0));
    assert!(float(f64::NAN) != float(f64::NAN));
    let m = Term::Kosha(vec![(Term::Str("a".into()), Term::Int(1))]);
    assert!(m == m.clone());
    assert!(m != Term::Kosha(vec![]));
}

#[test]
fn extend_renumbers_later_rules() {
    let mut base = Program::default();
    base.rules.push(rule(sym("f", vec![var("x")]), Term::Int(1), 0));
    base.rules.push(rule(sym("g", vec![]), Term::Int(2), 1));
    base.imports.push("a.sutra".into());
    let mut other = Program::default();
    other.rules.push(rule(sym("f", vec![Term::Int(0)]), Term::Int(3), 0));
    other.samjnas.push(Samjna { name: "रंग".into(), params: vec![], alts: vec![Term::con("लाल")] });
    other.prayogas.push(sym("f", vec![Term::Int(0)]));
    other.imports.push("b.sutra".into());
    base.extend(other);
    let orders: Vec<usize> = base.rules.iter().map(|r| r.order).collect();
    assert_eq!(orders, vec![0, 1, 2]);
    assert!(base.rules[2].rhs == Term::Int(3));
    assert_eq!(base.samjnas.len(), 1);
    assert_eq!(base.prayogas.len(), 1);
    assert_eq!(base.imports, vec!["a.sutra".to_string(), "b.sutra".to_string()]);
}

#[test]
fn samjna_lookup_finds_the_first() {
    let mut p = Program::default();
    p.samjnas.push(Samjna { name: "क".into(), params: vec![], alts: vec![Term::con("अ")] });
    p.samjnas.push(Samjna { name: "ख".into(), params: vec![], alts: vec![] });
    p.samjnas.push(Samjna { name: "क".into(), params: vec![], alts: vec![Term::con("इ")] });
    let s = p.samjna("क").unwrap();
    assert!(s.alts[0] == Term::con("अ"));
    assert!(p.samjna("ग").is_none());
}

#[test]
fn main_action_is_the_last_main_rule() {
    let mut p = Program::default();
    assert!(p.main_action().is_none());
    p.rules.push(rule(Term::con("मुख्य"), Term::Int(1), 0));
    p.rules.push(rule(sym("मुख्य", vec![var("x")]), Term::Int(2), 1));
    p.rules.push(rule(Term::con("मुख्य"), Term::Int(3), 2));
    p.rules.push(rule(Term::con("अन्य"), Term::Int(4), 3));
    assert!(p.main_action().unwrap() == Term::Int(3));
}
