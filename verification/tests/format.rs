use sutra::fmt::{format_source, render};
use sutra::fmt::token_text;
use sutra::lexer::{lex, lex_full, Tok, Token};

fn kinds(src: &str) -> Vec<Tok> {
    lex(src).expect("lexes").into_iter().map(|t| t.tok).collect()
}

#[test]
fn format_normalises_spacing() {
    assert_eq!(format_source("fn   f(?x)->?x;").unwrap(), "fn f(?x) -> ?x;\n");
    assert_eq!(format_source("सूत्र f ( ?x ) → ?x ।").unwrap(), "सूत्र f(?x) → ?x।\n");
    assert_eq!(format_source("[1,2]").unwrap(), "[1, 2]\n");
    assert_eq!(format_source("2+-3").unwrap(), "2 + -3\n");
    assert_eq!(format_source("{\"a\":1}").unwrap(), "{\"a\": 1}\n");
    assert_eq!(format_source("क्रम स {[अ]->[आ]।}").unwrap(), "क्रम स { [अ] -> [आ]। }\n");
    assert_eq!(format_source("").unwrap(), "\n");
}

#[test]
fn format_keeps_lines_and_comments() {
    let src = "सूत्र f(?x) ->\n?x।\n\n\n\nf(1)   # hi";
    assert_eq!(format_source(src).unwrap(), "सूत्र f(?x) ->\n  ?x।\n\nf(1)  # hi\n");
    let out = format_source(src).unwrap();
    assert_eq!(kinds(&out), kinds(src));
    // Already formatted text is a fixed point.
    assert_eq!(format_source(&out).unwrap(), out);
}

#[test]
fn format_numbers_in_ascii_digits() {
    assert_eq!(format_source("f(४२)").unwrap(), "f(42)\n");
}

#[test]
fn format_refuses_unlexable_source() {
    assert_eq!(format_source("\"open").unwrap_err(), "lex error (line 1): unterminated string literal");
    assert!(format_source("a & b").is_err());
}

#[test]
fn render_lays_out_tokens() {
    let toks = lex_full("f(1,\n2)").unwrap();
    assert_eq!(render(&toks), "f(1,\n  2)\n");
    let plain = lex("# only a comment\nx").unwrap();
    assert_eq!(render(&plain), "x\n");
    let full = lex_full("# only a comment\nx").unwrap();
    assert_eq!(render(&full), "# only a comment\nx\n");
}

#[test]
fn formatter() {
    let messy = "सूत्र   वर्ग2(?क)->?क*?क।    # comment\n\
                 fn dbl( ?x ) ->?x   * 2 ;\n\
                 गण स्वर:=[अ ,आ]।\n\
                 क्रम लोप{\n[स्वर,?v:स्वर]->[?v]।\n}\n\
                 प्रयोग {नाम:\"क\"}.नाम।\n";
    let formatted = format_source(messy).unwrap();
    // Canonical spacing; spelling (fn, ;) and comments preserved.
    assert!(formatted.contains("सूत्र वर्ग2(?क) -> ?क * ?क।  # comment"));
    assert!(formatted.contains("fn dbl(?x) -> ?x * 2;"));
    assert!(formatted.contains("गण स्वर := [अ, आ]।"));
    assert!(formatted.contains("  [स्वर, ?v:स्वर] -> [?v]।")); // block indented, ?v:गण tight
    assert!(formatted.contains("प्रयोग {नाम: \"क\"}.नाम।"));
    // Idempotent.
    assert_eq!(format_source(&formatted).unwrap(), formatted);
    // Token stream unchanged (the formatter's own invariant, double-checked).
    assert_eq!(kinds(messy), kinds(&formatted));
    // Multi-line declaration bodies get a continuation indent.
    let multi = "सूत्र मुख्य ->\nमुद्रण(\"a\") >>\nमुद्रण(\"b\")।\n";
    let f2 = format_source(multi).unwrap();
    assert!(f2.contains("\n  मुद्रण(\"a\") >>"));
}

#[test]
fn string_literals_round_trip() {
    for text in ["plain", "quote \" inside", "back\\slash", "two\nlines", "tab\there", "नमस्ते", ""] {
        let tok = Token { tok: Tok::Str(text.to_string()), line: 1, raw: None };
        let printed = token_text(&tok);
        assert_eq!(kinds(&printed), vec![Tok::Str(text.to_string()), Tok::Eof]);
    }
}

#[test]
fn format_refuses_layouts_that_would_merge_tokens() {
    // A unary `!` hugs what follows, so `! =` would print as `!=`.
    assert_eq!(
        format_source("! =").unwrap_err(),
        "internal error: formatting would change the token stream; refusing"
    );
    // `1 . 5` would print as the float `1.5`.
    assert!(format_source("1 . 5").is_err());
}
