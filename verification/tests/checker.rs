use sutra::ast::{FloatLit, Program, Rule, Samjna, Term};
use sutra::bigint::BigInt;
use sutra::check::{check, Diagnostic, Severity};
use sutra::parser::parse_program;
use sutra::krama::Class;
use sutra::sivasutra::SivaSutra;
use sutra::engine::{Engine, DEFAULT_FUEL};
use sutra::samjna::{classify, inhabits};

fn sym(name: &str, args: Vec<Term>) -> Term {
    Term::app(name, args)
}

fn var(name: &str) -> Term {
    Term::Var(name.to_string())
}

fn list(items: Vec<Term>) -> Term {
    let mut t = Term::con("रिक्त");
    for it in items.into_iter().rev() {
        t = sym("युग्म", vec![it, t]);
    }
    t
}

fn rule(lhs: Term, rhs: Term) -> Rule {
    Rule { lhs, guard: None, rhs, order: 0 }
}

fn samjna(name: &str, params: &[&str], alts: Vec<Term>) -> Samjna {
    Samjna { name: name.into(), params: params.iter().map(|p| p.to_string()).collect(), alts }
}

/// The core saṃjñās: truth values, lists and errors.
fn base_samjnas() -> Program {
    let mut p = Program::default();
    p.samjnas.push(samjna("सत्यता", &[], vec![Term::con("सत्य"), Term::con("असत्य")]));
    p.samjnas.push(samjna(
        "सूची",
        &["त"],
        vec![Term::con("रिक्त"), sym("युग्म", vec![var("त"), sym("सूची", vec![var("त")])])],
    ));
    p.samjnas.push(samjna("दोष", &[], vec![sym("दोष", vec![var("सन्देश")])]));
    p
}

fn msgs(ds: &[Diagnostic]) -> Vec<(bool, String)> {
    ds.iter().map(|d| (d.severity == Severity::Error, d.msg.clone())).collect()
}

#[test]
fn static_checker() {
    // संज्ञा रंग := लाल | हरित | नील।
    // सूत्र दुगुना(?x) -> ?x + ?y।
    // सूत्र नाम(लाल) -> "r"।
    // सूत्र नाम(हरित) -> "g"।
    let mut target = Program::default();
    target.samjnas.push(samjna("रंग", &[], vec![Term::con("लाल"), Term::con("हरित"), Term::con("नील")]));
    target.rules.push(rule(sym("दुगुना", vec![var("x")]), sym("+", vec![var("x"), var("y")])));
    target.rules.push(rule(sym("नाम", vec![Term::con("लाल")]), Term::Str("r".into())));
    target.rules.push(rule(sym("नाम", vec![Term::con("हरित")]), Term::Str("g".into())));
    let mut ctx = base_samjnas();
    ctx.extend(target.clone());
    let diags = check(&ctx, &target);

    assert!(diags.iter().any(|d| d.severity == Severity::Error && d.msg.contains("?y")));
    assert!(diags.iter().any(|d| d.msg.contains("non-exhaustive") && d.msg.contains("नील")));
    assert_eq!(
        msgs(&diags),
        vec![
            (true, "rule `दुगुना`: variable ?y is used but never bound".to_string()),
            (false, "function `नाम` may be non-exhaustive over रंग: no clause for नील".to_string()),
        ]
    );

    // A correct program is clean.
    let mut good = Program::default();
    good.rules.push(rule(sym("वर्ग2", vec![var("x")]), sym("*", vec![var("x"), var("x")])));
    let mut ctx2 = base_samjnas();
    ctx2.extend(good.clone());
    assert!(check(&ctx2, &good).is_empty());
}

#[test]
fn unbound_names_are_sorted_and_deduplicated() {
    let mut p = Program::default();
    let mut r = rule(sym("f", vec![var("a")]), sym("g", vec![var("z"), var("b"), var("z"), var("a")]));
    r.guard = Some(sym("<", vec![var("c"), var("b")]));
    p.rules.push(r);
    let diags = check(&p, &p);
    assert_eq!(
        msgs(&diags),
        vec![
            (true, "rule `f`: variable ?b is used but never bound".to_string()),
            (true, "rule `f`: variable ?c is used but never bound".to_string()),
            (true, "rule `f`: variable ?z is used but never bound".to_string()),
        ]
    );
}

#[test]
fn lambda_parameters_bind_in_their_body() {
    let mut p = Program::default();
    let lam = Term::Lam(vec!["x".into()], Box::new(sym("+", vec![var("x"), var("y")])));
    p.rules.push(rule(Term::con("h"), Term::App(Box::new(lam), vec![var("x")])));
    let diags = check(&p, &p);
    assert_eq!(
        msgs(&diags),
        vec![
            (true, "rule `h`: variable ?x is used but never bound".to_string()),
            (true, "rule `h`: variable ?y is used but never bound".to_string()),
        ]
    );
}

#[test]
fn prayogas_are_numbered_from_one() {
    let mut p = Program::default();
    p.prayogas.push(sym("f", vec![Term::Int(1)]));
    p.prayogas.push(sym("f", vec![var("q")]));
    let diags = check(&p, &p);
    assert_eq!(msgs(&diags), vec![(true, "प्रयोग #2: variable ?q is unbound".to_string())]);
}

#[test]
fn constructor_arity_mismatch() {
    let ctx = base_samjnas();
    let mut target = Program::default();
    target.rules.push(rule(
        sym("f", vec![sym("युग्म", vec![var("h")])]),
        sym("दोष", vec![Term::Str("a".into()), var("h")]),
    ));
    let diags = check(&ctx, &target);
    assert_eq!(
        msgs(&diags),
        vec![
            (false, "constructor `युग्म` expects 2 argument(s) but got 1".to_string()),
            (false, "constructor `दोष` expects 1 argument(s) but got 2".to_string()),
            (false, "function `f` may be non-exhaustive over सूची: no clause for रिक्त".to_string()),
        ]
    );
    // A bare constructor name is a reference, not a call.
    let mut ok = Program::default();
    ok.prayogas.push(Term::con("युग्म"));
    assert!(check(&ctx, &ok).is_empty());
}

#[test]
fn catch_all_or_guard_silences_exhaustiveness() {
    let ctx = base_samjnas();
    let mut with_var = Program::default();
    with_var.rules.push(rule(sym("न", vec![Term::con("सत्य")]), Term::con("असत्य")));
    with_var.rules.push(rule(sym("न", vec![var("x")]), Term::con("सत्य")));
    assert!(check(&ctx, &with_var).is_empty());

    let mut missing = Program::default();
    missing.rules.push(rule(sym("न", vec![Term::con("सत्य")]), Term::con("असत्य")));
    let diags = check(&ctx, &missing);
    assert_eq!(
        msgs(&diags),
        vec![(false, "function `न` may be non-exhaustive over सत्यता: no clause for असत्य".to_string())]
    );

    let mut guarded = Program::default();
    let mut r = rule(sym("न", vec![Term::con("सत्य")]), Term::con("असत्य"));
    r.guard = Some(Term::con("सत्य"));
    guarded.rules.push(r);
    assert!(check(&ctx, &guarded).is_empty());
}

#[test]
fn mixed_samjnas_are_not_reported() {
    let ctx = base_samjnas();
    let mut p = Program::default();
    p.rules.push(rule(sym("k", vec![Term::con("सत्य")]), Term::Int(1)));
    p.rules.push(rule(sym("k", vec![Term::con("रिक्त")]), Term::Int(2)));
    assert!(check(&ctx, &p).is_empty());
}

/// The normal form of `t` under `prog` (no floating-point operations).
fn nf(prog: &Program, t: Term) -> Term {
    let none = |_: String, _: Vec<Term>| -> Option<Term> { None };
    Engine::new(prog, DEFAULT_FUEL).normalize(&t, &none).term
}

#[test]
fn map_is_a_kosha() {
    let prog = base_samjnas();
    let m = Term::Kosha(vec![(Term::Str("a".into()), Term::Int(1))]);
    assert!(inhabits(&prog, &m, "कोश"));
}

#[test]
fn membership_is_structural() {
    let prog = base_samjnas();
    assert!(!inhabits(&prog, &Term::Str("x".into()), "संख्या"));
    assert!(inhabits(&prog, &Term::Big(BigInt::parse_decimal("99999999999999999999").unwrap()), "संख्या"));
    assert!(!inhabits(&prog, &sym("युग्म", vec![Term::Int(1), Term::Int(2)]), "सूची"));
    assert!(!inhabits(&prog, &Term::con("सत्य"), "अज्ञात"));
    assert!(!inhabits(&prog, &Term::con("शायद"), "सत्यता"));
}

#[test]
fn classify_lists_native_then_declared() {
    let prog = base_samjnas();
    assert_eq!(classify(&prog, &Term::Int(5)), vec!["संख्या".to_string()]);
    assert_eq!(classify(&prog, &Term::con("रिक्त")), vec!["सूची".to_string()]);
    assert_eq!(classify(&prog, &Term::con("कुछ")), Vec::<String>::new());
}

#[test]
fn underivable_pratyahara_is_reported() {
    let src = "गण भ्रम := प्रत्याहार(क, ज़्)।";
    let target = parse_program(src, &no_float_literals).unwrap();
    let mut ctx = base_samjnas();
    ctx.inventory = vec![
        SivaSutra { sounds: vec!["क".to_string(), "प".to_string()], marker: "य्".to_string() },
        SivaSutra { sounds: vec!["ह".to_string()], marker: "ल्".to_string() },
    ];
    ctx.extend(target.clone());
    let diags = check(&ctx, &target);
    assert!(diags.iter().any(|d| d.severity == Severity::Error && d.msg.contains("भ्रम")));
    // A derivable one is not reported.
    let mut fine = Program::default();
    fine.classes.push(Class::from_pratyahara(&ctx.inventory, "हल्".into(), "क".into(), "ल्".into()));
    assert!(check(&ctx, &fine).is_empty());
}

fn no_float_literals(s: String) -> FloatLit {
    panic!("no float literal expected: {}", s)
}
