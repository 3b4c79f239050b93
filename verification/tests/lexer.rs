use sutra::lexer::{lex, Tok};
use sutra::names::{canonical, devanagari_digits};
use sutra::ast::Term;
use sutra::bigint::BigInt;
use sutra::parser::{apply_value, binding_power, binop, ParseError};
use sutra::pretty::show;
use sutra::builtins::{is_builtin, make_list};
use sutra::repl::{cancels, input_complete, repl_input, repl_step, starts_declaration, trim_text, ReplAction, ReplInput, ReplState};
use sutra::ast::{FloatLit, Program};
use sutra::fmt::token_text;

fn toks(src: &str) -> Vec<Tok> {
    lex(src).expect("lexes").into_iter().map(|t| t.tok).collect()
}

#[test]
fn rule_lexes_in_devanagari() {
    let got = toks("सूत्र क्रमगुणित(?न) -> यदि(?न, 1)।");
    assert_eq!(
        got,
        vec![
            Tok::KwSutra,
            Tok::Ident("क्रमगुणित".into()),
            Tok::LParen,
            Tok::Var("न".into()),
            Tok::RParen,
            Tok::Arrow,
            Tok::Ident("यदि".into()),
            Tok::LParen,
            Tok::Var("न".into()),
            Tok::Comma,
            Tok::Int(1),
            Tok::RParen,
            Tok::Danda,
            Tok::Eof,
        ]
    );
}

#[test]
fn keywords_in_both_scripts() {
    assert_eq!(toks("sutra samjna adhikara prayoga"), toks("सूत्र संज्ञा अधिकार प्रयोग"));
    assert_eq!(
        toks("sutra samjna adhikara prayoga"),
        vec![Tok::KwSutra, Tok::KwSamjna, Tok::KwAdhikara, Tok::KwPrayoga, Tok::Eof]
    );
    assert_eq!(toks("sutras"), vec![Tok::Ident("sutras".into()), Tok::Eof]);
    let pairs = [
        ("fn", "सूत्र"),
        ("type", "संज्ञा"),
        ("section", "अधिकार"),
        ("eval", "प्रयोग"),
        ("import", "उपयोग"),
        ("let", "अस्तु"),
        ("in", "अतः"),
        ("if", "चेत्"),
        ("then", "तर्हि"),
        ("else", "अन्यथा"),
        ("class", "गण"),
        ("seq", "क्रम"),
        ("do", "क्रिया"),
    ];
    for (latin, deva) in pairs {
        let t = toks(latin);
        assert_eq!(t, toks(deva));
        assert_eq!(t.len(), 2);
        assert!(!matches!(t[0], Tok::Ident(_)));
    }
    assert_eq!(toks("fn"), vec![Tok::KwSutra, Tok::Eof]);
    assert_eq!(toks("if then else"), vec![Tok::KwIf, Tok::KwThen, Tok::KwElse, Tok::Eof]);
}

#[test]
fn operators_and_brackets() {
    let op = |s: &str| Tok::Op(s.to_string());
    assert_eq!(
        toks("10 - 3 - 2"),
        vec![Tok::Int(10), op("-"), Tok::Int(3), op("-"), Tok::Int(2), Tok::Eof]
    );
    assert_eq!(
        toks("+ - * / % == != < <= > >= && || ++ :: |> >> >>= !"),
        vec![
            op("+"), op("-"), op("*"), op("/"), op("%"), op("=="), op("!="), op("<"), op("<="),
            op(">"), op(">="), op("&&"), op("||"), op("++"), op("::"), op("|>"), op(">>"),
            op(">>="), op("!"), Tok::Eof,
        ]
    );
    assert_eq!(
        toks("[ ] { } = => <- : . |"),
        vec![
            Tok::LBrack, Tok::RBrack, Tok::LBrace, Tok::RBrace, Tok::Eq, Tok::FatArrow,
            Tok::LArrow, Tok::Colon, Tok::Dot, Tok::Bar, Tok::Eof,
        ]
    );
    assert_eq!(
        toks("(?x) => ?x * 2"),
        vec![
            Tok::LParen, Tok::Var("x".into()), Tok::RParen, Tok::FatArrow, Tok::Var("x".into()),
            op("*"), Tok::Int(2), Tok::Eof,
        ]
    );
}

#[test]
fn punctuation_and_arrows() {
    assert_eq!(
        toks("a → b -> c := d | e ; f ॥ g"),
        vec![
            Tok::Ident("a".into()),
            Tok::Arrow,
            Tok::Ident("b".into()),
            Tok::Arrow,
            Tok::Ident("c".into()),
            Tok::Define,
            Tok::Ident("d".into()),
            Tok::Bar,
            Tok::Ident("e".into()),
            Tok::Danda,
            Tok::Ident("f".into()),
            Tok::Danda,
            Tok::Ident("g".into()),
            Tok::Eof,
        ]
    );
}

#[test]
fn devanagari_and_ascii_numerals() {
    assert_eq!(toks("४२ 42 ०"), vec![Tok::Int(42), Tok::Int(42), Tok::Int(0), Tok::Eof]);
    assert_eq!(toks("4२"), vec![Tok::Int(42), Tok::Eof]);
    assert_eq!(toks("9223372036854775807"), vec![Tok::Int(i64::MAX), Tok::Eof]);
    assert_eq!(
        toks("9223372036854775808"),
        vec![Tok::Big(BigInt::parse_decimal("9223372036854775808").unwrap()), Tok::Eof]
    );
    assert_eq!(
        toks("340282366920938463463374607431768211455"),
        vec![Tok::Big(BigInt::parse_decimal("340282366920938463463374607431768211455").unwrap()), Tok::Eof]
    );
    assert_eq!(toks("3.14 ३.५"), vec![Tok::Float("3.14".into()), Tok::Float("३.५".into()), Tok::Eof]);
    // A dot not followed by a digit is field access.
    assert_eq!(toks("r.x"), vec![Tok::Ident("r".into()), Tok::Dot, Tok::Ident("x".into()), Tok::Eof]);
    let e = lex("340282366920938463463374607431768211456").unwrap_err();
    assert_eq!(e.msg, "numeral too large");
    assert_eq!(e.line, 1);
}

#[test]
fn strings_and_escapes() {
    assert_eq!(
        toks("\"a\\nb\\t\\\"c\\\\\""),
        vec![Tok::Str("a\nb\t\"c\\".into()), Tok::Eof]
    );
    let e = lex("\"open").unwrap_err();
    assert_eq!(e.msg, "unterminated string literal");
}

#[test]
fn comments_and_line_numbers() {
    let ts = lex("# heading\nक\n\nख # trailing\nग").unwrap();
    let lines: Vec<(Tok, usize)> = ts.into_iter().map(|t| (t.tok, t.line)).collect();
    assert_eq!(
        lines,
        vec![
            (Tok::Ident("क".into()), 2),
            (Tok::Ident("ख".into()), 4),
            (Tok::Ident("ग".into()), 5),
            (Tok::Eof, 5),
        ]
    );
    let multi = lex("\"a\nb\" c").unwrap();
    assert_eq!(multi[0].line, 2);
    assert_eq!(multi[1].line, 2);
}

#[test]
fn lex_errors_name_the_problem() {
    let e = lex("a\n& b").unwrap_err();
    assert_eq!(e.msg, "unexpected character '&'");
    assert_eq!(e.line, 2);
    assert_eq!(lex("? x").unwrap_err().msg, "expected variable name after '?'");
    assert_eq!(lex("a @ b").unwrap_err().msg, "unexpected character '@'");
    assert_eq!(lex("\n\n~").unwrap_err().line, 3);
    assert_eq!(lex("^ $").unwrap().len(), 3);
}

#[test]
fn empty_source_is_just_eof() {
    let ts = lex("").unwrap();
    assert_eq!(ts.len(), 1);
    assert_eq!(ts[0].tok, Tok::Eof);
    assert_eq!(ts[0].line, 1);
}

#[test]
fn lex_error_becomes_parse_error() {
    let e = lex("a\n\n& b").unwrap_err();
    let p: ParseError = ParseError::from(e);
    assert_eq!(p.msg, "unexpected character '&'");
    assert_eq!(p.line, 3);
}

#[test]
fn canonical_aliases() {
    assert_eq!(canonical("add"), "+");
    assert_eq!(canonical("योग"), "+");
    assert_eq!(canonical("map"), "प्रति");
    assert_eq!(canonical("true"), "सत्य");
    assert_eq!(canonical("main"), "मुख्य");
    assert_eq!(canonical("error"), "दोष");
    assert_eq!(canonical("प्रति"), "प्रति");
    assert_eq!(canonical("Map"), "Map");
    assert_eq!(canonical(""), "");
}

#[test]
fn devanagari_digit_conversion() {
    assert_eq!(devanagari_digits("42"), "४२");
    assert_eq!(devanagari_digits("-1.5e10"), "-१.५e१०");
    assert_eq!(devanagari_digits("abc"), "abc");
    assert_eq!(devanagari_digits("0123456789"), "०१२३४५६७८९");
    assert_eq!(devanagari_digits(""), "");
}

#[test]
fn builtin_heads() {
    for name in ["+", "neg", "==", "++", "दीर्घ", "रूप", "अंश", "अक्षर", "रिक्तकोश", "मूल्यानि"] {
        assert!(is_builtin(name), "{}", name);
    }
    for name in ["add", "यदि", "&&", "", "प्रति"] {
        assert!(!is_builtin(name), "{}", name);
    }
}

#[test]
fn operator_binding_powers() {
    assert_eq!(binding_power("|>"), Some((1, false)));
    assert_eq!(binding_power(">>="), Some((2, false)));
    assert_eq!(binding_power("||"), Some((3, false)));
    assert_eq!(binding_power("&&"), Some((4, false)));
    assert_eq!(binding_power("<="), Some((5, false)));
    assert_eq!(binding_power("::"), Some((6, true)));
    assert_eq!(binding_power("++"), Some((7, true)));
    assert_eq!(binding_power("-"), Some((8, false)));
    assert_eq!(binding_power("%"), Some((9, false)));
    assert_eq!(binding_power("!"), None);
    assert_eq!(binding_power("add"), None);
}

#[test]
fn declarations_are_recognised_by_their_first_word() {
    assert!(starts_declaration("सूत्र f(?x) -> ?x।"));
    assert!(starts_declaration("  fn f(?x) -> ?x;"));
    assert!(starts_declaration("\n\ttype Color := Red | Green;"));
    assert!(starts_declaration("import \"lib.sutra\";"));
    assert!(starts_declaration("eval"));
    assert!(starts_declaration("upayoga \"lib.sutra\";"));
    assert!(!starts_declaration("f(1) + 2"));
    assert!(!starts_declaration("fnord(1)"));
    assert!(!starts_declaration("   "));
    assert!(!starts_declaration(""));
    assert!(!starts_declaration("(fn)"));
}

#[test]
fn infix_operators_desugar() {
    let l = |xs: &[i64]| make_list(xs.iter().map(|n| Term::Int(*n)).collect());
    assert_eq!(show(&binop("::", Term::Int(0), l(&[1, 2])), true), "[0, 1, 2]");
    let t = || Term::con("सत्य");
    let f = || Term::con("असत्य");
    assert_eq!(show(&binop("&&", t(), f()), true), "च(सत्य, असत्य)");
    assert_eq!(show(&binop("||", t(), f()), true), "वा(सत्य, असत्य)");
    assert_eq!(show(&binop(">>", t(), f()), true), "अनुक्रम(सत्य, असत्य)");
    assert_eq!(show(&binop(">>=", t(), f()), true), "बन्ध(सत्य, असत्य)");
    assert_eq!(show(&binop("+", Term::Int(1), Term::Int(2)), true), "1 + 2");
    // `x |> f` applies f to x; a partial application takes x last.
    assert_eq!(show(&binop("|>", l(&[1, 2]), Term::con("दीर्घ")), true), "दीर्घ([1, 2])");
    let add10 = Term::app("योग", vec![Term::Int(10)]);
    assert_eq!(show(&binop("|>", Term::Int(5), add10), true), "योग(10, 5)");
    let id = Term::Lam(vec!["x".to_string()], Box::new(Term::Var("x".to_string())));
    assert_eq!(show(&apply_value(id, vec![Term::Int(3)]), true), "((?x) => ?x)(3)");
}

#[test]
fn input_complete_waits_for_more() {
    assert!(!input_complete("2 +"));
    assert!(!input_complete("[1,"));
    assert!(!input_complete("f(x) ->"));
    assert!(!input_complete("f(1"));
    assert!(!input_complete("\"open"));
    assert!(!input_complete("सूत्र f(?x) -> ?x"));
    assert!(input_complete("सूत्र f(?x) -> ?x।"));
    assert!(input_complete("f(1)"));
    assert!(input_complete("2 + 3"));
    assert!(input_complete("क्रम स { [अ] -> [आ]। }"));
    assert!(input_complete(""));
}

fn texts(src: &str) -> Vec<String> {
    lex(src).expect("lexes").iter().map(token_text).collect()
}

#[test]
fn token_text_prints_tokens_back() {
    assert_eq!(texts("fn f(?x) -> ?x;"), vec!["fn", "f", "(", "?x", ")", "->", "?x", ";", ""]);
    assert_eq!(texts("सूत्र"), vec!["सूत्र", ""]);
    assert_eq!(texts("\"a\\\"b\\n\""), vec!["\"a\\\"b\\n\"", ""]);
    assert_eq!(texts("४२ 7 3.25"), vec!["42", "7", "3.25", ""]);
    assert_eq!(texts("x := [1, 2] => y"), vec!["x", ":=", "[", "1", ",", "2", "]", "=>", "y", ""]);
    assert_eq!(texts("340282366920938463463374607431768211455"), vec!["340282366920938463463374607431768211455", ""]);
}

#[test]
fn repl_inputs_are_told_apart() {
    assert!(matches!(repl_input("   \n"), ReplInput::Blank));
    match repl_input("  :type  2 + 3  \n") {
        ReplInput::Command { name, arg } => {
            assert_eq!(name, "type");
            assert_eq!(arg, "2 + 3");
        }
        _ => panic!("a command"),
    }
    match repl_input(":quit") {
        ReplInput::Command { name, arg } => {
            assert_eq!(name, "quit");
            assert_eq!(arg, "");
        }
        _ => panic!("a command"),
    }
    assert!(matches!(repl_input("fn f(?x) -> ?x;"), ReplInput::Declaration));
    assert!(matches!(repl_input("upayoga \"lib.sutra\";"), ReplInput::Declaration));
    assert!(matches!(repl_input("f(1)"), ReplInput::Expression));
    assert!(matches!(repl_input("fnord"), ReplInput::Expression));
    assert_eq!(trim_text("\t a b \n"), "a b");
    assert_eq!(trim_text("   "), "");
}

fn read_float(s: String) -> FloatLit {
    let x: f64 = s.parse().unwrap();
    FloatLit { bits: x.to_bits(), text: format!("{}", x) }
}

#[test]
fn repl_session_steps() {
    let st = ReplState { session: Program::default(), history: Vec::new() };
    let (st, a) = repl_step(st, "   ", &read_float);
    assert!(matches!(a, ReplAction::Nothing));
    assert!(st.history.is_empty());
    let (st, a) = repl_step(st, "fn dbl(?x) -> ?x * 2;\nprayoga dbl(4);\n", &read_float);
    match a {
        ReplAction::Defined(ps) => assert_eq!(ps.len(), 1),
        _ => panic!("defined"),
    }
    assert_eq!(st.session.rules.len(), 1);
    assert!(st.session.prayogas.is_empty());
    assert_eq!(st.history, vec!["fn dbl(?x) -> ?x * 2;\nprayoga dbl(4);".to_string()]);
    let (st, a) = repl_step(st, "fn half(?x) -> ?x / 2;", &read_float);
    assert!(matches!(a, ReplAction::Defined(ref ps) if ps.is_empty()));
    assert_eq!(st.session.rules[1].order, 1);
    let (st, a) = repl_step(st, "dbl(2.5)", &read_float);
    assert!(matches!(a, ReplAction::Evaluate(_)));
    let (st, a) = repl_step(st, ":type dbl(", &read_float);
    assert!(matches!(a, ReplAction::TypeOf(Err(_))));
    let (st, a) = repl_step(st, ":load lib.sutra", &read_float);
    assert!(matches!(a, ReplAction::Load(ref p) if p == "lib.sutra"));
    let (st, a) = repl_step(st, ":frobnicate", &read_float);
    assert!(matches!(a, ReplAction::Unknown(ref n) if n == "frobnicate"));
    let (st, a) = repl_step(st, "f(", &read_float);
    assert!(matches!(a, ReplAction::Failed(_)));
    assert_eq!(st.history.len(), 7);
    let (st, a) = repl_step(st, ":reset", &read_float);
    assert!(matches!(a, ReplAction::Reset));
    assert!(st.session.rules.is_empty());
    let (_, a) = repl_step(st, ":q", &read_float);
    assert!(matches!(a, ReplAction::Quit));
}

#[test]
fn blank_line_cancels_an_unfinished_input() {
    assert!(cancels("f(1,\n", "  \n"));
    assert!(!cancels("f(1,\n", "2)\n"));
    assert!(!cancels("f(1)\n", "\n"));
    assert!(!cancels("", "\n"));
}

#[test]
fn canonical_spellings_are_fixed_points() {
    for name in ["add", "योग", "map", "emptymap", "क्रमगुणित", "प्रति", ""] {
        let once = canonical(name);
        assert_eq!(canonical(&once), once);
    }
    assert_eq!(canonical("क्रमगुणित"), "क्रमगुणित");
    assert_eq!(canonical("get"), "प्राप्ति");
}
