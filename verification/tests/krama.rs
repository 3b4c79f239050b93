use sutra::ast::{FloatLit, Program, Term};
use sutra::parser::{parse_expr, parse_program};
use sutra::builtins::make_list;
use sutra::engine::Engine;
use sutra::krama::{rewrite_seq, Class, SeqRule, SeqSystem};
use sutra::sivasutra::{pratyahara, SivaSutra};
use sutra::pretty::show;
use sutra::rewrite::{match_term, subst, Bindings};

const FUEL: u64 = 5_000_000;

fn sym(name: &str, args: Vec<Term>) -> Term {
    Term::app(name, args)
}

fn c(name: &str) -> Term {
    Term::con(name)
}

fn var(name: &str) -> Term {
    Term::Var(name.to_string())
}

fn atoms(names: &[&str]) -> Vec<Term> {
    names.iter().map(|n| c(n)).collect()
}

fn class(name: &str, members: &[&str]) -> Class {
    Class { name: name.to_string(), members: atoms(members), span: None }
}

fn system(name: &str, rules: Vec<(Vec<Term>, Vec<Term>)>) -> SeqSystem {
    SeqSystem {
        name: name.to_string(),
        rules: rules.into_iter().map(|(lhs, rhs)| SeqRule { lhs, rhs }).collect(),
    }
}

fn start() -> Term {
    c("@आदि")
}

fn end() -> Term {
    c("@अन्त")
}

fn segment(v: &str) -> Term {
    sym("@तारा", vec![var(v)])
}

fn no_floats(_: String, _: Vec<Term>) -> Option<Term> {
    None
}

/// Apply a sequence system to a term through the engine.
fn apply_system(classes: &Vec<Class>, sys: &SeqSystem, arg: Term) -> String {
    let mut prog = Program::default();
    prog.seq.push(sys.clone());
    prog.classes = classes.clone();
    let call = sym(&sys.name, vec![arg]);
    show(&Engine::new(&prog, FUEL).normalize(&call, &no_floats).term, true)
}

/// Rewrite a list under a sequence system.
fn run(classes: &Vec<Class>, sys: &SeqSystem, elems: Vec<Term>) -> String {
    let direct = show(&make_list(rewrite_seq(classes, sys, elems.clone(), FUEL)), true);
    assert_eq!(apply_system(classes, sys, make_list(elems)), direct);
    direct
}

fn read_float(s: String) -> FloatLit {
    let x: f64 = s.parse().unwrap();
    FloatLit { bits: x.to_bits(), text: format!("{}", x) }
}

fn parse(src: &str) -> Program {
    parse_program(src, &read_float).expect("program parses")
}

fn eval_in(prog: &Program, expr: &str) -> String {
    let t = parse_expr(expr, &read_float).expect("should parse");
    show(&Engine::new(prog, FUEL).normalize(&t, &no_floats).term, true)
}

#[test]
fn sequence_rewriting() {
    let src = "क्रम संधि { [अ, इ] -> [ए]। [अ, उ] -> [ओ]। }\n\
               क्रम संक्षेप { [?x, ?x] -> [?x]। }";
    let prog = parse(src);
    // Combines a vowel junction anywhere in the sequence.
    assert_eq!(eval_in(&prog, "संधि([क, अ, इ, त])"), "[क, ए, त]");
    // Variable patterns: collapse runs of equal elements.
    assert_eq!(eval_in(&prog, "संक्षेप([1, 1, 2, 2, 3])"), "[1, 2, 3]");
    // A non-list argument leaves the application stuck (honest failure).
    assert_eq!(eval_in(&prog, "संधि(5)"), "संधि(5)");
    // The same through the library call directly.
    let none: Vec<Class> = vec![];
    let sandhi = system(
        "संधि",
        vec![(atoms(&["अ", "इ"]), atoms(&["ए"])), (atoms(&["अ", "उ"]), atoms(&["ओ"]))],
    );
    assert_eq!(run(&none, &sandhi, atoms(&["क", "अ", "इ", "त"])), "[क, ए, त]");
}

#[test]
fn element_classes() {
    let src = "गण अवर्ण := [अ, आ]।\n\
               गण इवर्ण := [इ, ई]।\n\
               क्रम संधि { [अवर्ण, इवर्ण] -> [ए]। }\n\
               गण स्वर := [अ, आ, इ, ई, उ, ऊ]।\n\
               क्रम लोप { [स्वर, ?v:स्वर] -> [?v]। }";
    let prog = parse(src);
    // A class matches any member (आ ∈ अवर्ण, ई ∈ इवर्ण).
    assert_eq!(eval_in(&prog, "संधि([क, आ, ई, त])"), "[क, ए, त]");
    // Bare class as context + bound class member reproduced in the output.
    assert_eq!(eval_in(&prog, "लोप([क, अ, इ, त])"), "[क, इ, त]");
    assert_eq!(eval_in(&prog, "लोप([आ, उ])"), "[उ]");
}

#[test]
fn seq_anchors_and_segments() {
    let src = "गण स्वर := [अ, आ, इ]।\n\
               क्रम आदि { [^, अ] -> [आ]। }\n\
               क्रम विसर्ग { [स, $] -> [ः]। }\n\
               क्रम विभाग { [?a*, मध्य, ?b*] -> [रचना(?a, ?b)]। }\n\
               क्रम अग्रलोप { [^, ?v:स्वर*, ?c] -> [?c]। }\n\
               क्रम युगल { [^, ?x*, सम, ?x*, $] -> [?x*]। }";
    let prog = parse(src);
    // ^ fires only at the start.
    assert_eq!(eval_in(&prog, "आदि([अ, क, अ])"), "[आ, क, अ]");
    // $ fires only at the end.
    assert_eq!(eval_in(&prog, "विसर्ग([र, म, स])"), "[र, म, ः]");
    assert_eq!(eval_in(&prog, "विसर्ग([स, थ])"), "[स, थ]");
    // ?v* captures segments (greedy); plain ?v in the RHS gets the list value.
    assert_eq!(eval_in(&prog, "विभाग([1, 2, मध्य, 3])"), "[([1, 2], [3])]");
    // Class-constrained segment: a run of vowels.
    assert_eq!(eval_in(&prog, "अग्रलोप([अ, इ, आ, क])"), "[क]");
    // Non-linear segments with anchors: the WHOLE word must be x-सम-x.
    assert_eq!(eval_in(&prog, "युगल([प, द, सम, प, द])"), "[प, द]");
    assert_eq!(eval_in(&prog, "युगल([प, सम, द])"), "[प, सम, द]");
}

#[test]
fn segments_are_greedy_and_bind_lists() {
    let none: Vec<Class> = vec![];
    let split = system(
        "विभाग",
        vec![(vec![segment("a"), c("मध्य"), segment("b")], vec![sym("रचना", vec![var("a"), var("b")])])],
    );
    let elems = vec![Term::Int(1), Term::Int(2), c("मध्य"), Term::Int(3)];
    assert_eq!(run(&none, &split, elems), "[([1, 2], [3])]");
}

#[test]
fn cascading_and_fuel() {
    let none: Vec<Class> = vec![];
    let sys = system(
        "संधि",
        vec![(atoms(&["अ", "अ"]), atoms(&["आ"])), (atoms(&["आ", "इ"]), atoms(&["ऐ"]))],
    );
    assert_eq!(run(&none, &sys, atoms(&["अ", "अ", "इ"])), "[ऐ]");
    // With no fuel, exactly one rewrite is made.
    let once = rewrite_seq(&none, &sys, atoms(&["अ", "अ", "इ"]), 0);
    assert_eq!(show(&make_list(once), true), "[आ, इ]");
    // The later-declared rule wins where both match.
    let later = system("p", vec![(atoms(&["क"]), atoms(&["ख"])), (atoms(&["क"]), atoms(&["ग"]))]);
    assert_eq!(run(&none, &later, atoms(&["क"])), "[ग]");
    // Identity rewrites make no progress and are skipped.
    let same = system("q", vec![(atoms(&["क"]), atoms(&["क"]))]);
    assert_eq!(run(&none, &same, atoms(&["क", "ख"])), "[क, ख]");
}

#[test]
fn matching_is_non_linear() {
    let pat = sym("यमल", vec![var("x"), var("x")]);
    let same = sym("यमल", vec![Term::Int(1), Term::Int(1)]);
    let diff = sym("यमल", vec![Term::Int(1), Term::Int(2)]);
    let b = match_term(&pat, &same, Bindings::new()).expect("matches");
    assert!(b.get("x").unwrap() == &Term::Int(1));
    assert!(match_term(&pat, &diff, Bindings::new()).is_none());
    assert!(match_term(&sym("f", vec![var("x")]), &sym("g", vec![Term::Int(1)]), Bindings::new()).is_none());
    assert!(match_term(&Term::Int(3), &Term::Int(3), Bindings::new()).is_some());
    assert!(match_term(&Term::Str("a".into()), &Term::Str("b".into()), Bindings::new()).is_none());
}

#[test]
fn substitution_respects_shadowing() {
    let mut b = Bindings::new();
    b.insert("x".to_string(), Term::Int(1));
    b.insert("y".to_string(), Term::Int(2));
    let t = sym(
        "+",
        vec![var("x"), Term::App(Box::new(Term::Lam(vec!["x".into()], Box::new(sym("*", vec![var("x"), var("y")])))), vec![var("z")])],
    );
    let r = subst(&t, &b);
    assert_eq!(show(&r, true), "1 + ((?x) => ?x * 2)(?z)");
    b.remove("x");
    assert!(b.get("x").is_none());
    assert!(b.get("y").unwrap() == &Term::Int(2));
    b.insert("y".to_string(), Term::Int(5));
    assert!(b.get("y").unwrap() == &Term::Int(5));
}

/// Pāṇini's fourteen śivasūtras.
fn shiva_inventory() -> Vec<SivaSutra> {
    let lines: [(&[&str], &str); 14] = [
        (&["अ", "इ", "उ"], "ण्"),
        (&["ऋ", "ऌ"], "क्"),
        (&["ए", "ओ"], "ङ्"),
        (&["ऐ", "औ"], "च्"),
        (&["ह", "य", "व", "र"], "ट्"),
        (&["ल"], "ण्"),
        (&["ञ", "म", "ङ", "ण", "न"], "म्"),
        (&["झ", "भ"], "ञ्"),
        (&["घ", "ढ", "ध"], "ष्"),
        (&["ज", "ब", "ग", "ड", "द"], "श्"),
        (&["ख", "फ", "छ", "ठ", "थ", "च", "ट", "त"], "व्"),
        (&["क", "प"], "य्"),
        (&["श", "ष", "स"], "र्"),
        (&["ह"], "ल्"),
    ];
    lines
        .iter()
        .map(|(sounds, marker)| SivaSutra {
            sounds: sounds.iter().map(|s| s.to_string()).collect(),
            marker: marker.to_string(),
        })
        .collect()
}

fn derived(inv: &Vec<SivaSutra>, name: &str, start: &str, marker: &str) -> Class {
    Class::from_pratyahara(inv, name.to_string(), start.to_string(), marker.to_string())
}

/// Pāṇini's fourteen śivasūtras and the classes these scenarios use.
const SHIVA: &str = "
शिवसूत्र {
  [अ, इ, उ] -> ण्। [ऋ, ऌ] -> क्। [ए, ओ] -> ङ्। [ऐ, औ] -> च्।
  [ह, य, व, र] -> ट्। [ल] -> ण्। [ञ, म, ङ, ण, न] -> म्। [झ, भ] -> ञ्।
  [घ, ढ, ध] -> ष्। [ज, ब, ग, ड, द] -> श्। [ख, फ, छ, ठ, थ, च, ट, त] -> व्।
  [क, प] -> य्। [श, ष, स] -> र्। [ह] -> ल्।
}
गण अच् := प्रत्याहार(अ, च्)।
गण इक् := प्रत्याहार(इ, क्)।
गण हल् := प्रत्याहार(ह, ल्)।
";

fn load_prelude() -> Program {
    parse(SHIVA)
}

#[test]
fn shivasutra_pratyahara() {
    // The stdlib ships Pāṇini's śivasūtras: iko yaṇ aci (6.1.77) end-to-end.
    let src = "सूत्र यणादेश(इ) -> य। सूत्र यणादेश(उ) -> व।\n\
               क्रम संधि { [?i:इक्, ?a:अच्] -> [यणादेश(?i), ?a]। }";
    let mut prog = load_prelude();
    prog.extend(parse(src));
    assert_eq!(eval_in(&prog, "संधि([द, ध, इ, अ, त, र])"), "[द, ध, य, अ, त, र]");
    // ऐ is a vowel (अच्) but not इक्; हल् is the consonant span.
    let cls = "क्रम क1 { [?v:अच्] -> [स्वरः]। }\nक्रम क2 { [?v:हल्] -> [व्य]। }";
    let mut p2 = load_prelude();
    p2.extend(parse(cls));
    assert_eq!(eval_in(&p2, "क1([ऐ])"), "[स्वरः]");
    assert_eq!(eval_in(&p2, "क2([ख])"), "[व्य]");
    assert_eq!(eval_in(&p2, "क2([औ])"), "[औ]"); // a vowel is not in हल्

    // A user-defined inventory and span.
    let own = "शिवसूत्र { [क, ख] -> म्। [ग] -> न्। }\n\
               गण कन् := प्रत्याहार(ख, न्)।\n\
               क्रम प { [?v:कन्] -> [हित]। }";
    let p3 = {
        let mut p = load_prelude();
        p.extend(parse(own));
        p
    };
    assert_eq!(eval_in(&p3, "प([ग])"), "[हित]");
    assert_eq!(eval_in(&p3, "प([क])"), "[क]"); // क is before the span's start
}

#[test]
fn pratyahara_spans_lines() {
    let inv = shiva_inventory();
    assert_eq!(pratyahara(&inv, "इ", "क्"), Some(vec!["इ".to_string(), "उ".to_string(), "ऋ".to_string(), "ऌ".to_string()]));
    assert_eq!(pratyahara(&inv, "अ", "ण्"), Some(vec!["अ".to_string(), "इ".to_string(), "उ".to_string()]));
    assert_eq!(pratyahara(&inv, "य", "ण्").map(|v| v.len()), Some(4));
    assert_eq!(pratyahara(&inv, "क", "ज़्"), None);
    assert_eq!(pratyahara(&inv, "ज़", "क्"), None);
    // The marker must come at or after the start.
    assert_eq!(pratyahara(&inv, "क", "च्"), None);
    let empty = derived(&inv, "भ्रम", "क", "ज़्");
    assert!(empty.members.is_empty());
}
