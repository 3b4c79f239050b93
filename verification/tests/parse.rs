use sutra::ast::{FloatLit, Term};
use sutra::engine::{Engine, DEFAULT_FUEL};
use sutra::parser::{parse_expr, parse_program};
use sutra::pretty::show;
use sutra::stdlib::load_modules;

/// Reads a float literal the way the command line does.
fn read_float(s: String) -> FloatLit {
    let ascii: String = s
        .chars()
        .map(|c| match c {
            '०'..='९' => char::from(b'0' + (c as u32 - '०' as u32) as u8),
            other => other,
        })
        .collect();
    let x: f64 = ascii.parse().unwrap();
    FloatLit { bits: x.to_bits(), text: format!("{}", x) }
}

fn parsed(src: &str) -> String {
    show(&parse_expr(src, &read_float).expect("parses"), true)
}

fn parse_error(src: &str) -> (String, usize) {
    let e = parse_expr(src, &read_float).expect_err("fails");
    (e.msg, e.line)
}

#[test]
fn infix_precedence_and_associativity() {
    let t = parse_expr("2 + 3 * 4", &read_float).unwrap();
    match t {
        Term::Sym(op, args) => {
            assert_eq!(op, "+");
            assert!(matches!(args[0], Term::Int(2)));
            assert!(matches!(&args[1], Term::Sym(m, _) if m == "*"));
        }
        other => panic!("{:?}", other),
    }
    let t = parse_expr("10 - 3 - 2", &read_float).unwrap();
    match t {
        Term::Sym(op, args) => {
            assert_eq!(op, "-");
            assert!(matches!(&args[0], Term::Sym(m, _) if m == "-"));
            assert!(matches!(args[1], Term::Int(2)));
        }
        other => panic!("{:?}", other),
    }
    // `::` and `++` associate to the right.
    assert_eq!(parsed("1 :: 2 :: []"), "[1, 2]");
}

#[test]
fn sugar_desugars_to_core_terms() {
    assert_eq!(parsed("[1, 2, 3]"), "[1, 2, 3]");
    assert_eq!(parsed("[]"), "[]");
    assert_eq!(parsed("-5"), "-5");
    assert_eq!(parsed("--5"), "5");
    assert_eq!(parsed("!सत्य"), "न(सत्य)");
    assert_eq!(parsed("if सत्य then 1 else 2"), "यदि(सत्य, 1, 2)");
    assert_eq!(parsed("x |> f"), "f(x)");
    assert_eq!(parsed("x |> g(1)"), "g(1, x)");
    assert_eq!(parsed("a && b || c"), "वा(च(a, b), c)");
    assert_eq!(parsed("m >> k"), "अनुक्रम(m, k)");
    assert_eq!(parsed("(1, 2, 3)"), "(1, 2, 3)");
    assert_eq!(parsed("(7)"), "7");
    assert_eq!(parsed("r.नाम"), "प्राप्ति(r, \"नाम\")");
    assert_eq!(parsed("{}"), "रिक्तकोश");
    assert_eq!(parsed("{a: 1}"), "समावेश(रिक्तकोश, \"a\", 1)");
    assert_eq!(parsed("f(1)(2)"), "f(1, 2)");
    assert_eq!(parsed("\"नम\" ++ \"स्ते\""), "\"नम\" ++ \"स्ते\"");
}

#[test]
fn lambdas_and_let() {
    let t = parse_expr("let ?x = 21 in ?x * 2", &read_float).unwrap();
    match t {
        Term::App(f, args) => {
            assert!(matches!(*f, Term::Lam(ref ps, _) if ps == &vec!["x".to_string()]));
            assert!(matches!(args[0], Term::Int(21)));
        }
        other => panic!("{:?}", other),
    }
    let t = parse_expr("(?x, ?y) => ?x + ?y", &read_float).unwrap();
    assert!(matches!(t, Term::Lam(ref ps, _) if ps.len() == 2));
    let t = parse_expr("() => 1", &read_float).unwrap();
    assert!(matches!(t, Term::Lam(ref ps, _) if ps.is_empty()));
}

#[test]
fn latin_and_devanagari_parse_alike() {
    assert_eq!(parsed("if true then add(1, 2) else len([])"), parsed("चेत् सत्य तर्हि योग(1, 2) अन्यथा दीर्घ([])"));
    assert_eq!(parsed("४२"), "42");
}

#[test]
fn float_literals_are_read_by_the_caller() {
    let t = parse_expr("3.50", &read_float).unwrap();
    assert!(matches!(&t, Term::Float(f) if f.bits == 3.5f64.to_bits() && f.text == "3.5"));
    let t = parse_expr("-0.25", &read_float).unwrap();
    assert!(matches!(&t, Term::Float(f) if f.bits == (-0.25f64).to_bits() && f.text == "-0.25"));
}

#[test]
fn parse_errors_name_the_line() {
    assert_eq!(parse_error("1 +"), ("expected an expression, found end of input".to_string(), 1));
    assert_eq!(parse_error("f(1\n, 2"), ("expected ')', found end of input".to_string(), 2));
    assert_eq!(parse_error("1 2"), ("unexpected trailing input: `2`".to_string(), 1));
    assert_eq!(parse_error("(1, f(2)) => 3").0, "lambda parameters must be variables like ?x");
    assert_eq!(parse_error("\"open").0, "unterminated string literal");
    assert!(parse_expr("7।", &read_float).is_ok());
}

fn no_floats(_: String, _: Vec<Term>) -> Option<Term> {
    None
}

fn eval_in(src: &str, expr: &str) -> String {
    let prog = parse_program(src, &read_float).expect("program parses");
    let t = parse_expr(expr, &read_float).expect("expression parses");
    show(&Engine::new(&prog, DEFAULT_FUEL).normalize(&t, &no_floats).term, true)
}

#[test]
fn programs_parse_declarations() {
    let src = "अधिकार गणित।\n\
               संज्ञा रंग := लाल | हरित | नील।\n\
               संज्ञा सूची(?त) := रिक्त | युग्म(?त, सूची(?त))।\n\
               सूत्र दुगुना(?x) -> ?x * 2।\n\
               fn half(?x) | ?x > 0 -> ?x / 2;\n\
               प्रयोग दुगुना(21)।\n\
               import \"lib.sutra\";\n\
               गण स्वर := [अ, आ]।\n\
               क्रम लोप { [स्वर, ?v:स्वर] -> [?v]। }";
    let p = parse_program(src, &read_float).unwrap();
    assert_eq!(p.rules.len(), 2);
    assert_eq!(p.rules[0].order, 0);
    assert_eq!(p.rules[1].order, 1);
    assert!(p.rules[1].guard.is_some());
    assert_eq!(show(&p.rules[1].lhs, true), "half(?x)");
    assert_eq!(p.samjnas.len(), 2);
    assert_eq!(p.samjnas[0].alts.len(), 3);
    assert_eq!(p.samjnas[1].params, vec!["त".to_string()]);
    assert_eq!(p.prayogas.len(), 1);
    assert_eq!(p.imports, vec!["lib.sutra".to_string()]);
    assert_eq!(p.classes.len(), 1);
    assert_eq!(p.classes[0].members.len(), 2);
    assert_eq!(p.seq.len(), 1);
    assert_eq!(p.seq[0].rules[0].lhs.len(), 2);
    assert_eq!(show(&p.seq[0].rules[0].lhs[1], true), "@गण(?v, स्वर)");
}

#[test]
fn program_errors_name_the_line() {
    let e = parse_program("सूत्र f(?x) -> ?x", &read_float).unwrap_err();
    assert_eq!((e.msg.as_str(), e.line), ("expected daṇḍa after rule, found end of input", 1));
    let e = parse_program("\n\n42।", &read_float).unwrap_err();
    assert_eq!((e.msg.as_str(), e.line), ("expected a declaration, found `42`", 3));
    let e = parse_program("उपयोग 5।", &read_float).unwrap_err();
    assert_eq!(e.msg, "उपयोग expects a \"path\", found `5`");
}

#[test]
fn inventory_and_pratyahara_declarations() {
    let own = "शिवसूत्र { [क, ख] -> म्। [ग] -> न्। }\n\
               गण कन् := प्रत्याहार(ख, न्)।\n\
               क्रम प { [?v:कन्] -> [हित]। }";
    let p = parse_program(own, &read_float).unwrap();
    assert_eq!(p.inventory.len(), 2);
    assert_eq!(p.classes[0].members.len(), 2);
    assert!(p.classes[0].span.is_some());
    assert_eq!(eval_in(own, "प([ग])"), "[हित]");
    assert_eq!(eval_in(own, "प([क])"), "[क]");
}

#[test]
fn guards_from_source() {
    // Guarded base case declared last (so paratva tries it first); when its
    // guard fails it falls through to the recursive clause.
    let src = "सूत्र फिबो(?n) -> फिबो(?n - 1) + फिबो(?n - 2)।\n\
               सूत्र फिबो(?n) | ?n < 2 -> ?n।";
    assert_eq!(eval_in(src, "फिबो(10)"), "55");
}

#[test]
fn arithmetic_from_source() {
    assert_eq!(eval_in("", "2 + 3 * 4"), "14");
    assert_eq!(eval_in("", "(2 + 3) * 4"), "20");
    assert_eq!(eval_in("", "10 - 3 - 2"), "5");
    assert_eq!(eval_in("", "7 / 2"), "3");
    assert_eq!(eval_in("", "7 % 3"), "1");
    assert_eq!(eval_in("", "-5 + 8"), "3");
    assert_eq!(eval_in("", "let ?x = 21 in ?x * 2"), "42");
    assert_eq!(eval_in("", "((?x, ?y) => ?x + ?y)(3, 4)"), "7");
}

#[test]
fn parse_error_text() {
    let e = parse_expr("(1", &read_float).unwrap_err();
    assert_eq!(e.to_string(), "parse error (line 1): expected ')', found end of input");
}

#[test]
fn stdlib_modules_are_joined_in_order() {
    let mods = vec![
        ("ganita".to_string(), "सूत्र वर्ग(?x) -> ?x * ?x।".to_string()),
        ("tarka".to_string(), "सूत्र वर्ग(0) -> शून्य।\nप्रयोग वर्ग(3)।".to_string()),
    ];
    let p = load_modules(&mods, &read_float).unwrap();
    assert_eq!(p.rules.len(), 2);
    assert_eq!(p.rules[1].order, 1);
    assert_eq!(p.prayogas.len(), 1);
    let bad = vec![
        ("ganita".to_string(), "सूत्र वर्ग(?x) -> ?x * ?x।".to_string()),
        ("suchi".to_string(), "सूत्र f(".to_string()),
    ];
    assert_eq!(
        load_modules(&bad, &read_float).unwrap_err(),
        "error in stdlib module 'suchi': parse error (line 1): expected an expression, found end of input"
    );
}
