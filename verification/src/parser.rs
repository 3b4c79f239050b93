//! The parser: expressions (Pratt parsing of the infix operators) and
//! declarations, desugared into the core terms (`Sym` / `App` / `Lam` /
//! literals). Every rule of the grammar is a spec function over the token
//! stream, and the parser is proved to compute it. Identifiers are
//! canonicalised as they are read.
use crate::ast::{
    FloatLit, Program, ProgramV, Rule, RuleV, Samjna, SamjnaV, Term, TermV, terms_view, lemma_terms_view,
    names_view,
};
use crate::fmt::{same_tok, tok_text, tok_text_spec};
use crate::krama::{Class, ClassV, SeqRule, SeqRuleV, SeqSystem, SeqSystemV};
use crate::lexer::{LexError, Tok, TokV, Token, TokenV, tokens_view};
use crate::names::{canonical, canonical_spec};
use crate::sivasutra::{pratyahara_members, PratyaharaV, SivaSutra, SivaSutraV};
use crate::text::{push_str, str_eq};
use vstd::prelude::*;
use vstd::std_specs::convert::FromSpecImpl;

verus! {

#[derive(Debug)]
pub struct ParseError {
    pub msg: String,
    pub line: usize,
}

impl From<LexError> for ParseError {
    fn from(e: LexError) -> (r: ParseError) {
        ParseError { msg: e.msg, line: e.line }
    }
}

impl FromSpecImpl<LexError> for ParseError {
    open spec fn obeys_from_spec() -> bool {
        true
    }

    open spec fn from_spec(e: LexError) -> ParseError {
        ParseError { msg: e.msg, line: e.line }
    }
}

/// Precedence and associativity (right-associative?) of an infix operator.
pub open spec fn binding_power_spec(op: Seq<char>) -> Option<(u8, bool)> {
    if op == "|>"@ {
        Some((1, false))
    } else if op == ">>"@ || op == ">>="@ {
        Some((2, false))
    } else if op == "||"@ {
        Some((3, false))
    } else if op == "&&"@ {
        Some((4, false))
    } else if op == "=="@ || op == "!="@ || op == "<"@ || op == "<="@ || op == ">"@ || op
        == ">="@ {
        Some((5, false))
    } else if op == "::"@ {
        Some((6, true))
    } else if op == "++"@ {
        Some((7, true))
    } else if op == "+"@ || op == "-"@ {
        Some((8, false))
    } else if op == "*"@ || op == "/"@ || op == "%"@ {
        Some((9, false))
    } else {
        None
    }
}

/// Precedence and associativity of an infix operator: `(precedence,
/// right_associative)`, or `None` for a non-operator.
pub fn binding_power(op: &str) -> (r: Option<(u8, bool)>)
    ensures
        r == binding_power_spec(op@),
{
    if str_eq(op, "|>") {
        Some((1, false))
    } else if str_eq(op, ">>") || str_eq(op, ">>=") {
        Some((2, false))
    } else if str_eq(op, "||") {
        Some((3, false))
    } else if str_eq(op, "&&") {
        Some((4, false))
    } else if str_eq(op, "==") || str_eq(op, "!=") || str_eq(op, "<") || str_eq(op, "<=")
        || str_eq(op, ">") || str_eq(op, ">=") {
        Some((5, false))
    } else if str_eq(op, "::") {
        Some((6, true))
    } else if str_eq(op, "++") {
        Some((7, true))
    } else if str_eq(op, "+") || str_eq(op, "-") {
        Some((8, false))
    } else if str_eq(op, "*") || str_eq(op, "/") || str_eq(op, "%") {
        Some((9, false))
    } else {
        None
    }
}

/// Apply a function term to arguments: a symbol (bare, or a partial
/// application) takes them as further arguments; any other value becomes an
/// application.
pub open spec fn apply_value_spec(f: TermV, args: Seq<TermV>) -> TermV {
    match f {
        TermV::Sym(name, prev) => TermV::Sym(name, prev + args),
        _ => TermV::App(Box::new(f), args),
    }
}

/// Apply a (possibly value) function term to arguments, choosing a symbol
/// call or an application.
pub fn apply_value(f: Term, args: Vec<Term>) -> (t: Term)
    ensures
        t@ == apply_value_spec(f@, terms_view(args@)),
{
    match f {
        Term::Sym(name, prev) => {
            let ghost (p0, a0) = (prev@, args@);
            let mut all = prev;
            let mut rest = args;
            all.append(&mut rest);
            proof {
                lemma_terms_view(p0);
                lemma_terms_view(a0);
                lemma_terms_view(all@);
                assert(terms_view(all@) =~= terms_view(p0) + terms_view(a0));
            }
            Term::Sym(name, all)
        },
        other => Term::App(Box::new(other), args),
    }
}

/// The core term an infix operator stands for: `::` builds a list cell,
/// `&&`, `||`, `>>` and `>>=` name library rules, `|>` applies its right
/// side to its left, and the rest are symbols of their own name.
pub open spec fn binop_spec(op: Seq<char>, l: TermV, r: TermV) -> TermV {
    if op == "::"@ {
        TermV::Sym("युग्म"@, seq![l, r])
    } else if op == "&&"@ {
        TermV::Sym("च"@, seq![l, r])
    } else if op == "||"@ {
        TermV::Sym("वा"@, seq![l, r])
    } else if op == ">>"@ {
        TermV::Sym("अनुक्रम"@, seq![l, r])
    } else if op == ">>="@ {
        TermV::Sym("बन्ध"@, seq![l, r])
    } else if op == "|>"@ {
        apply_value_spec(r, seq![l])
    } else {
        TermV::Sym(op, seq![l, r])
    }
}

/// Desugar an infix application.
pub fn binop(op: &str, l: Term, r: Term) -> (t: Term)
    ensures
        t@ == binop_spec(op@, l@, r@),
{
    let ghost (lv, rv) = (l@, r@);
    proof {
        reveal_strlit("::");
        reveal_strlit("&&");
        reveal_strlit("||");
        reveal_strlit(">>");
        reveal_strlit(">>=");
        reveal_strlit("|>");
    }
    if str_eq(op, "|>") {
        let args = vec![l];
        proof {
            lemma_terms_view(args@);
            assert(terms_view(args@) =~= seq![lv]);
            assert("|>"@[1] != "::"@[1] && "|>"@[0] != "&&"@[0] && "|>"@[1] != "||"@[1]);
            assert("|>"@[0] != ">>"@[0] && "|>"@.len() != ">>="@.len());
        }
        return apply_value(r, args);
    }
    let args = vec![l, r];
    proof {
        lemma_terms_view(args@);
        assert(terms_view(args@) =~= seq![lv, rv]);
    }
    if str_eq(op, "::") {
        Term::app("युग्म", args)
    } else if str_eq(op, "&&") {
        Term::app("च", args)
    } else if str_eq(op, "||") {
        Term::app("वा", args)
    } else if str_eq(op, ">>") {
        Term::app("अनुक्रम", args)
    } else if str_eq(op, ">>=") {
        Term::app("बन्ध", args)
    } else {
        Term::app(op, args)
    }
}

// ---------------------------------------------------------------------------
// The grammar.

/// A parse error, viewed.
pub struct ParseErrorV {
    pub msg: Seq<char>,
    pub line: nat,
}

impl View for ParseError {
    type V = ParseErrorV;

    open spec fn view(&self) -> ParseErrorV {
        ParseErrorV { msg: self.msg@, line: self.line as nat }
    }
}

/// How a parse error reads.
pub open spec fn parse_error_text(e: ParseErrorV) -> Seq<char> {
    "parse error (line "@ + crate::decimal::nat_to_decimal(e.line) + "): "@ + e.msg
}

impl ParseError {
    /// The error as text: its line and its message.
    pub fn to_string(&self) -> (r: String)
        ensures
            r@ == parse_error_text(self@),
    {
        let mut out = "parse error (line ".to_owned();
        crate::decimal::push_decimal(&mut out, self.line as u64);
        push_str(&mut out, "): ");
        push_str(&mut out, self.msg.as_str());
        proof {
            reveal_strlit("parse error (line ");
            reveal_strlit("): ");
            assert(out@ =~= parse_error_text(self@));
        }
        out
    }
}

/// How deeply the parser may nest its rules.
pub const PARSE_DEPTH: u64 = 1_000_000;

/// Floating-point literals are read by the caller's function, which gives a
/// literal's bits and shortest spelling; it must answer alike on alike text.
pub open spec fn literal_reader_ok<F: Fn(String) -> FloatLit>(f: F) -> bool {
    &&& forall|s: String| #[trigger] f.requires((s,))
    &&& forall|s1: String, r1: FloatLit, s2: String, r2: FloatLit|
        #![trigger f.ensures((s1,), r1), f.ensures((s2,), r2)]
        f.ensures((s1,), r1) && f.ensures((s2,), r2) && s1@ == s2@ ==> r1.bits == r2.bits && r1.text@
            == r2.text@
}

/// What the caller's reader gives on a literal's text.
pub open spec fn literal_oracle<F: Fn(String) -> FloatLit>(f: F) -> spec_fn(Seq<char>) -> (u64, Seq<char>) {
    |s: Seq<char>|
        {
            let (a, r) = choose|a: String, r: FloatLit| a@ == s && #[trigger] f.ensures((a,), r);
            (r.bits, r.text@)
        }
}

// ---- token access ----
/// The position after `p`, staying on the last token.
pub open spec fn next(ts: Seq<TokenV>, p: int) -> int {
    if p + 1 < ts.len() {
        p + 1
    } else {
        p
    }
}

/// How a token is named in a message.
pub open spec fn describe(t: TokV) -> Seq<char> {
    if t is Eof {
        "end of input"@
    } else {
        "`"@ + tok_text_spec(t) + "`"@
    }
}

/// An error at the token at `p`.
pub open spec fn error_at(ts: Seq<TokenV>, p: int, msg: Seq<char>) -> ParseErrorV {
    ParseErrorV { msg, line: ts[p].line }
}

/// "expected WHAT, found TOKEN" at `p`.
pub open spec fn expected(ts: Seq<TokenV>, p: int, what: Seq<char>) -> ParseErrorV {
    error_at(ts, p, "expected "@ + what + ", found "@ + describe(ts[p].tok))
}

/// The nesting limit reached at `p`.
pub open spec fn too_deep(ts: Seq<TokenV>, p: int) -> ParseErrorV {
    error_at(ts, p, "expression nested too deeply"@)
}

/// Consume a token of kind `want`, or fail naming `what`.
pub open spec fn p_expect(ts: Seq<TokenV>, p: int, want: TokV, what: Seq<char>) -> Result<int, ParseErrorV> {
    if ts[p].tok == want {
        Ok(next(ts, p))
    } else {
        Err(expected(ts, p, what))
    }
}

// ---- desugaring ----
/// A list literal as cons cells.
pub open spec fn cons_list(items: Seq<TermV>) -> TermV
    decreases items.len(),
{
    if items.len() == 0 {
        TermV::Sym("रिक्त"@, Seq::empty())
    } else {
        TermV::Sym("युग्म"@, seq![items[0], cons_list(items.drop_first())])
    }
}

/// The negation of a double given by its bits: its sign bit flipped.
pub open spec fn neg_bits(b: u64) -> u64 {
    if b >= 0x8000_0000_0000_0000 {
        (b - 0x8000_0000_0000_0000) as u64
    } else {
        (b + 0x8000_0000_0000_0000) as u64
    }
}

/// The spelling of a negated double.
pub open spec fn neg_text(s: Seq<char>) -> Seq<char> {
    if s.len() > 0 && s[0] == '-' {
        s.drop_first()
    } else {
        seq!['-'] + s
    }
}

/// A prefix operator applied: `-` folds into a number literal, else names
/// `neg`; `!` names `न`.
pub open spec fn prefix_term(minus: bool, e: TermV) -> TermV {
    if minus {
        match e {
            TermV::Int(n) => if n > i64::MIN {
                TermV::Int(-n)
            } else {
                TermV::Sym("neg"@, seq![e])
            },
            TermV::Float(b, s) => TermV::Float(neg_bits(b), neg_text(s)),
            _ => TermV::Sym("neg"@, seq![e]),
        }
    } else {
        TermV::Sym("न"@, seq![e])
    }
}

/// Every item is a variable.
pub open spec fn all_vars(items: Seq<TermV>) -> bool {
    forall|i: int| 0 <= i < items.len() ==> #[trigger] items[i] is Var
}

/// The names of variables.
pub open spec fn var_names(items: Seq<TermV>) -> Seq<Seq<char>> {
    items.map_values(|t: TermV| t->Var_0)
}

// ---- expressions ----
/// One `Result` shape for the rules: the term and the position after it.
pub open spec fn p_expr(ts: Seq<TokenV>, p: int, f: nat, fl: spec_fn(Seq<char>) -> (u64, Seq<char>)) -> Result<
    (TermV, int),
    ParseErrorV,
>
    decreases f, 6int,
{
    if f == 0 {
        Err(too_deep(ts, p))
    } else {
        p_expr_bp(ts, p, 0, (f - 1) as nat, fl)
    }
}

/// An expression whose operators bind at least `min`.
pub open spec fn p_expr_bp(ts: Seq<TokenV>, p: int, min: u8, f: nat, fl: spec_fn(Seq<char>) -> (u64, Seq<char>)) -> Result<
    (TermV, int),
    ParseErrorV,
>
    decreases f, 5int,
{
    if f == 0 {
        Err(too_deep(ts, p))
    } else {
        match p_unary(ts, p, (f - 1) as nat, fl) {
            Ok((lhs, p1)) => p_infix(ts, p1, min, lhs, (f - 1) as nat, fl),
            Err(e) => Err(e),
        }
    }
}

/// Infix operators after `lhs`, each binding at least `min`.
pub open spec fn p_infix(
    ts: Seq<TokenV>,
    p: int,
    min: u8,
    lhs: TermV,
    f: nat,
    fl: spec_fn(Seq<char>) -> (u64, Seq<char>),
) -> Result<(TermV, int), ParseErrorV>
    decreases f, 4int,
{
    if f == 0 {
        Err(too_deep(ts, p))
    } else {
        match ts[p].tok {
            TokV::Op(o) => match binding_power_spec(o) {
                Some((prec, right)) => if prec < min {
                    Ok((lhs, p))
                } else {
                    let next_min: u8 = if right {
                        prec
                    } else {
                        (prec + 1) as u8
                    };
                    match p_expr_bp(ts, next(ts, p), next_min, (f - 1) as nat, fl) {
                        Ok((rhs, p2)) => p_infix(ts, p2, min, binop_spec(o, lhs, rhs), (f - 1) as nat, fl),
                        Err(e) => Err(e),
                    }
                },
                None => Ok((lhs, p)),
            },
            _ => Ok((lhs, p)),
        }
    }
}

/// A prefix `-` or `!`, or a postfix expression.
pub open spec fn p_unary(ts: Seq<TokenV>, p: int, f: nat, fl: spec_fn(Seq<char>) -> (u64, Seq<char>)) -> Result<
    (TermV, int),
    ParseErrorV,
>
    decreases f, 3int,
{
    if f == 0 {
        Err(too_deep(ts, p))
    } else if ts[p].tok == TokV::Op("-"@) || ts[p].tok == TokV::Op("!"@) {
        match p_unary(ts, next(ts, p), (f - 1) as nat, fl) {
            Ok((e, p1)) => Ok((prefix_term(ts[p].tok == TokV::Op("-"@), e), p1)),
            Err(e) => Err(e),
        }
    } else {
        match p_primary(ts, p, (f - 1) as nat, fl) {
            Ok((e, p1)) => p_postfix(ts, p1, e, (f - 1) as nat, fl),
            Err(e) => Err(e),
        }
    }
}

/// Argument lists and field accesses after `e`.
pub open spec fn p_postfix(ts: Seq<TokenV>, p: int, e: TermV, f: nat, fl: spec_fn(Seq<char>) -> (u64, Seq<char>)) -> Result<
    (TermV, int),
    ParseErrorV,
>
    decreases f, 2int,
{
    if f == 0 {
        Err(too_deep(ts, p))
    } else if ts[p].tok is LParen {
        let q = next(ts, p);
        let args = if ts[q].tok is RParen {
            Ok((Seq::<TermV>::empty(), q))
        } else {
            p_items(ts, q, Seq::empty(), (f - 1) as nat, fl)
        };
        match args {
            Ok((xs, p1)) => match p_expect(ts, p1, TokV::RParen, "')'"@) {
                Ok(p2) => p_postfix(ts, p2, apply_value_spec(e, xs), (f - 1) as nat, fl),
                Err(err) => Err(err),
            },
            Err(err) => Err(err),
        }
    } else if ts[p].tok is Dot {
        let q = next(ts, p);
        match ts[q].tok {
            TokV::Ident(field) => p_postfix(
                ts,
                next(ts, q),
                TermV::Sym("प्राप्ति"@, seq![e, TermV::Str(field)]),
                (f - 1) as nat,
                fl,
            ),
            _ => Err(expected(ts, q, "a field name after '.'"@)),
        }
    } else {
        Ok((e, p))
    }
}

/// Comma-separated expressions after those in `acc`.
pub open spec fn p_items(
    ts: Seq<TokenV>,
    p: int,
    acc: Seq<TermV>,
    f: nat,
    fl: spec_fn(Seq<char>) -> (u64, Seq<char>),
) -> Result<(Seq<TermV>, int), ParseErrorV>
    decreases f, 1int,
{
    if f == 0 {
        Err(too_deep(ts, p))
    } else {
        match p_expr(ts, p, (f - 1) as nat, fl) {
            Ok((e, p1)) => if ts[p1].tok is Comma {
                p_items(ts, next(ts, p1), acc.push(e), (f - 1) as nat, fl)
            } else {
                Ok((acc.push(e), p1))
            },
            Err(err) => Err(err),
        }
    }
}

/// Map entries after the map `acc`: `key: value`, a bare name being a
/// string key.
pub open spec fn p_entries(ts: Seq<TokenV>, p: int, acc: TermV, f: nat, fl: spec_fn(Seq<char>) -> (u64, Seq<char>)) -> Result<
    (TermV, int),
    ParseErrorV,
>
    decreases f, 1int,
{
    if f == 0 {
        Err(too_deep(ts, p))
    } else {
        let key = match ts[p].tok {
            TokV::Ident(name) => Ok((TermV::Str(name), next(ts, p))),
            _ => p_expr(ts, p, (f - 1) as nat, fl),
        };
        match key {
            Ok((k, p1)) => match p_expect(ts, p1, TokV::Colon, "':' in map entry"@) {
                Ok(p2) => match p_expr(ts, p2, (f - 1) as nat, fl) {
                    Ok((v, p3)) => {
                        let m = TermV::Sym("समावेश"@, seq![acc, k, v]);
                        if ts[p3].tok is Comma {
                            p_entries(ts, next(ts, p3), m, (f - 1) as nat, fl)
                        } else {
                            Ok((m, p3))
                        }
                    },
                    Err(err) => Err(err),
                },
                Err(err) => Err(err),
            },
            Err(err) => Err(err),
        }
    }
}

/// A primary expression: a literal, a variable, a name, a list, a map, a
/// parenthesised expression, a tuple or a lambda, `let` or `if`.
pub open spec fn p_primary(ts: Seq<TokenV>, p: int, f: nat, fl: spec_fn(Seq<char>) -> (u64, Seq<char>)) -> Result<
    (TermV, int),
    ParseErrorV,
>
    decreases f, 1int,
{
    if f == 0 {
        Err(too_deep(ts, p))
    } else {
        let g = (f - 1) as nat;
        let q = next(ts, p);
        match ts[p].tok {
            TokV::Int(n) => Ok((TermV::Int(n), q)),
            TokV::Big(n) => Ok((TermV::Big(n), q)),
            TokV::Float(s) => Ok((TermV::Float(fl(s).0, fl(s).1), q)),
            TokV::Str(s) => Ok((TermV::Str(s), q)),
            TokV::Var(v) => Ok((TermV::Var(v), q)),
            TokV::Ident(name) => Ok((TermV::Sym(canonical_spec(name), Seq::empty()), q)),
            TokV::LBrack => p_list(ts, q, g, fl),
            TokV::LBrace => p_map(ts, q, g, fl),
            TokV::LParen => p_paren(ts, q, g, fl),
            TokV::KwLet => match ts[q].tok {
                TokV::Var(v) => p_let_rest(ts, next(ts, q), v, g, fl),
                TokV::Ident(v) => p_let_rest(ts, next(ts, q), v, g, fl),
                _ => Err(expected(ts, q, "a binder name after let"@)),
            },
            TokV::KwIf => p_if(ts, q, g, fl),
            TokV::KwDo => p_do(ts, q, g, fl),
            _ => Err(expected(ts, p, "an expression"@)),
        }
    }
}

/// A list literal after its `[`, as cons cells.
pub open spec fn p_list(ts: Seq<TokenV>, q: int, f: nat, fl: spec_fn(Seq<char>) -> (u64, Seq<char>)) -> Result<
    (TermV, int),
    ParseErrorV,
>
    decreases f, 0int,
{
    if f == 0 {
        Err(too_deep(ts, q))
    } else {
        let items = if ts[q].tok is RBrack {
            Ok((Seq::<TermV>::empty(), q))
        } else {
            p_items(ts, q, Seq::empty(), (f - 1) as nat, fl)
        };
        match items {
            Ok((xs, p1)) => match p_expect(ts, p1, TokV::RBrack, "']'"@) {
                Ok(p2) => Ok((cons_list(xs), p2)),
                Err(err) => Err(err),
            },
            Err(err) => Err(err),
        }
    }
}

/// A map literal after its `{`: inserts into the empty map.
pub open spec fn p_map(ts: Seq<TokenV>, q: int, f: nat, fl: spec_fn(Seq<char>) -> (u64, Seq<char>)) -> Result<
    (TermV, int),
    ParseErrorV,
>
    decreases f, 0int,
{
    if f == 0 {
        Err(too_deep(ts, q))
    } else {
        let empty = TermV::Sym("रिक्तकोश"@, Seq::empty());
        let body = if ts[q].tok is RBrace {
            Ok((empty, q))
        } else {
            p_entries(ts, q, empty, (f - 1) as nat, fl)
        };
        match body {
            Ok((m, p1)) => match p_expect(ts, p1, TokV::RBrace, "'}'"@) {
                Ok(p2) => Ok((m, p2)),
                Err(err) => Err(err),
            },
            Err(err) => Err(err),
        }
    }
}

/// After a `(`: a lambda `(params) => body`, a parenthesised expression, or
/// a tuple `रचना(…)`.
pub open spec fn p_paren(ts: Seq<TokenV>, q: int, f: nat, fl: spec_fn(Seq<char>) -> (u64, Seq<char>)) -> Result<
    (TermV, int),
    ParseErrorV,
>
    decreases f, 0int,
{
    if f == 0 {
        Err(too_deep(ts, q))
    } else if ts[q].tok is RParen {
        match p_expect(ts, next(ts, q), TokV::FatArrow, "'=>' (lambda)"@) {
            Ok(p1) => match p_expr(ts, p1, (f - 1) as nat, fl) {
                Ok((body, p2)) => Ok((TermV::Lam(Seq::empty(), Box::new(body)), p2)),
                Err(err) => Err(err),
            },
            Err(err) => Err(err),
        }
    } else {
        match p_items(ts, q, Seq::empty(), (f - 1) as nat, fl) {
            Ok((xs, p1)) => match p_expect(ts, p1, TokV::RParen, "')'"@) {
                Ok(p2) => if ts[p2].tok is FatArrow {
                    if all_vars(xs) {
                        match p_expr(ts, next(ts, p2), (f - 1) as nat, fl) {
                            Ok((body, p3)) => Ok((TermV::Lam(var_names(xs), Box::new(body)), p3)),
                            Err(err) => Err(err),
                        }
                    } else {
                        Err(error_at(ts, p2, "lambda parameters must be variables like ?x"@))
                    }
                } else if xs.len() == 1 {
                    Ok((xs[0], p2))
                } else {
                    Ok((TermV::Sym("रचना"@, xs), p2))
                },
                Err(err) => Err(err),
            },
            Err(err) => Err(err),
        }
    }
}

/// After `do`: a braced block of statements.
pub open spec fn p_do(ts: Seq<TokenV>, q: int, f: nat, fl: spec_fn(Seq<char>) -> (u64, Seq<char>)) -> Result<
    (TermV, int),
    ParseErrorV,
>
    decreases f, 0int,
{
    if f == 0 {
        Err(too_deep(ts, q))
    } else {
        match p_expect(ts, q, TokV::LBrace, "'{'"@) {
            Ok(p1) => match p_stmts(ts, p1, (f - 1) as nat, fl) {
                Ok((t, p2)) => match p_expect(ts, p2, TokV::RBrace, "'}'"@) {
                    Ok(p3) => Ok((t, p3)),
                    Err(err) => Err(err),
                },
                Err(err) => Err(err),
            },
            Err(err) => Err(err),
        }
    }
}

/// The statements of a `do` block, separated by daṇḍas: `?x <- m` binds
/// the rest to `m`'s result (`बन्ध(m, (?x) => rest)`), an action before
/// more statements is sequenced (`अनुक्रम(m, rest)`), and the last
/// statement is the block's value.
pub open spec fn p_stmts(ts: Seq<TokenV>, p: int, f: nat, fl: spec_fn(Seq<char>) -> (u64, Seq<char>)) -> Result<
    (TermV, int),
    ParseErrorV,
>
    decreases f, 0int,
{
    if f == 0 {
        Err(too_deep(ts, p))
    } else {
        let g = (f - 1) as nat;
        let q = next(ts, p);
        if ts[p].tok is Var && ts[q].tok is LArrow {
            match p_expr(ts, next(ts, q), g, fl) {
                Ok((m, p1)) => match p_expect(ts, p1, TokV::Danda, "daṇḍa after a binding"@) {
                    Ok(p2) => match p_stmts(ts, p2, g, fl) {
                        Ok((rest, p3)) => Ok((
                            TermV::Sym(
                                "बन्ध"@,
                                seq![m, TermV::Lam(seq![ts[p].tok->Var_0], Box::new(rest))],
                            ),
                            p3,
                        )),
                        Err(err) => Err(err),
                    },
                    Err(err) => Err(err),
                },
                Err(err) => Err(err),
            }
        } else {
            match p_expr(ts, p, g, fl) {
                Ok((e, p1)) => if ts[p1].tok is Danda && !(ts[next(ts, p1)].tok is RBrace) {
                    match p_stmts(ts, next(ts, p1), g, fl) {
                        Ok((rest, p3)) => Ok((TermV::Sym("अनुक्रम"@, seq![e, rest]), p3)),
                        Err(err) => Err(err),
                    }
                } else if ts[p1].tok is Danda {
                    Ok((e, next(ts, p1)))
                } else {
                    Ok((e, p1))
                },
                Err(err) => Err(err),
            }
        }
    }
}

/// After `if`: `c then a else b` as `यदि(c, a, b)`.
pub open spec fn p_if(ts: Seq<TokenV>, q: int, f: nat, fl: spec_fn(Seq<char>) -> (u64, Seq<char>)) -> Result<
    (TermV, int),
    ParseErrorV,
>
    decreases f, 0int,
{
    if f == 0 {
        Err(too_deep(ts, q))
    } else {
        let g = (f - 1) as nat;
        match p_expr(ts, q, g, fl) {
            Ok((c, p1)) => match p_expect(ts, p1, TokV::KwThen, "then"@) {
                Ok(p2) => match p_expr(ts, p2, g, fl) {
                    Ok((a, p3)) => match p_expect(ts, p3, TokV::KwElse, "else"@) {
                        Ok(p4) => match p_expr(ts, p4, g, fl) {
                            Ok((b, p5)) => Ok((TermV::Sym("यदि"@, seq![c, a, b]), p5)),
                            Err(err) => Err(err),
                        },
                        Err(err) => Err(err),
                    },
                    Err(err) => Err(err),
                },
                Err(err) => Err(err),
            },
            Err(err) => Err(err),
        }
    }
}

/// The rest of `let ?x = e in body` after the binder: `((?x) => body)(e)`.
pub open spec fn p_let_rest(ts: Seq<TokenV>, p: int, v: Seq<char>, f: nat, fl: spec_fn(Seq<char>) -> (u64, Seq<char>)) -> Result<
    (TermV, int),
    ParseErrorV,
>
    decreases f, 0int,
{
    if f == 0 {
        Err(too_deep(ts, p))
    } else {
        match p_expect(ts, p, TokV::Eq, "'='"@) {
            Ok(p1) => match p_expr(ts, p1, (f - 1) as nat, fl) {
                Ok((bound, p2)) => match p_expect(ts, p2, TokV::KwIn, "in"@) {
                    Ok(p3) => match p_expr(ts, p3, (f - 1) as nat, fl) {
                        Ok((body, p4)) => Ok((TermV::App(Box::new(TermV::Lam(seq![v], Box::new(body))), seq![bound]), p4)),
                        Err(err) => Err(err),
                    },
                    Err(err) => Err(err),
                },
                Err(err) => Err(err),
            },
            Err(err) => Err(err),
        }
    }
}

// ---------------------------------------------------------------------------
// The parser.
/// A rule's result, viewed.
pub open spec fn term_result(r: Result<(Term, usize), ParseError>) -> Result<(TermV, int), ParseErrorV> {
    match r {
        Ok((t, p)) => Ok((t@, p as int)),
        Err(e) => Err(e@),
    }
}

/// A list rule's result, viewed.
pub open spec fn items_result(r: Result<(Vec<Term>, usize), ParseError>) -> Result<(Seq<TermV>, int), ParseErrorV> {
    match r {
        Ok((t, p)) => Ok((terms_view(t@), p as int)),
        Err(e) => Err(e@),
    }
}

/// A position result, viewed.
pub open spec fn pos_result(r: Result<usize, ParseError>) -> Result<int, ParseErrorV> {
    match r {
        Ok(p) => Ok(p as int),
        Err(e) => Err(e@),
    }
}

/// The position is within the tokens.
pub open spec fn pos_ok<T>(r: Result<(T, usize), ParseError>, n: nat) -> bool {
    r matches Ok((_, q)) ==> q < n
}

fn next_pos(ts: &Vec<Token>, p: usize) -> (q: usize)
    requires
        p < ts.len(),
    ensures
        q == next(tokens_view(ts@), p as int),
        q < ts.len(),
{
    if p + 1 < ts.len() {
        p + 1
    } else {
        p
    }
}

fn describe_tok(t: &Tok) -> (r: String)
    ensures
        r@ == describe(t@),
{
    if matches!(t, Tok::Eof) {
        "end of input".to_owned()
    } else {
        let mut out = "`".to_owned();
        let text = tok_text(t);
        push_str(&mut out, text.as_str());
        push_str(&mut out, "`");
        proof {
            reveal_strlit("`");
            assert(out@ =~= "`"@ + tok_text_spec(t@) + "`"@);
        }
        out
    }
}

fn err_at(ts: &Vec<Token>, p: usize, msg: &str) -> (e: ParseError)
    requires
        p < ts.len(),
    ensures
        e@ == error_at(tokens_view(ts@), p as int, msg@),
{
    ParseError { msg: msg.to_owned(), line: ts[p].line }
}

fn err_expected(ts: &Vec<Token>, p: usize, what: &str) -> (e: ParseError)
    requires
        p < ts.len(),
    ensures
        e@ == expected(tokens_view(ts@), p as int, what@),
{
    let mut msg = "expected ".to_owned();
    push_str(&mut msg, what);
    push_str(&mut msg, ", found ");
    let d = describe_tok(&ts[p].tok);
    push_str(&mut msg, d.as_str());
    proof {
        reveal_strlit("expected ");
        reveal_strlit(", found ");
        assert(msg@ =~= "expected "@ + what@ + ", found "@ + describe(tokens_view(ts@)[p as int].tok));
    }
    ParseError { msg, line: ts[p].line }
}

fn too_deep_at(ts: &Vec<Token>, p: usize) -> (e: ParseError)
    requires
        p < ts.len(),
    ensures
        e@ == too_deep(tokens_view(ts@), p as int),
{
    err_at(ts, p, "expression nested too deeply")
}

fn expect(ts: &Vec<Token>, p: usize, want: &Tok, what: &str) -> (r: Result<usize, ParseError>)
    requires
        p < ts.len(),
    ensures
        pos_result(r) == p_expect(tokens_view(ts@), p as int, want@, what@),
        r matches Ok(q) ==> q < ts.len(),
{
    if same_tok(&ts[p].tok, want) {
        Ok(next_pos(ts, p))
    } else {
        Err(err_expected(ts, p, what))
    }
}

proof fn lemma_push_view(v: Seq<Term>, t: Term)
    ensures
        terms_view(v.push(t)) == terms_view(v).push(t@),
{
    assert(v.push(t).drop_last() =~= v);
}

fn cons_list_exec(items: Vec<Term>) -> (r: Term)
    ensures
        r@ == cons_list(terms_view(items@)),
{
    let ghost xs = terms_view(items@);
    let mut rest = items;
    let mut t = Term::con("रिक्त");
    proof {
        lemma_terms_view(rest@);
        assert(xs.skip(xs.len() as int) =~= Seq::<TermV>::empty());
        assert(xs.take(xs.len() as int) =~= xs);
    }
    while rest.len() > 0
        invariant
            rest.len() <= xs.len(),
            terms_view(rest@) == xs.take(rest.len() as int),
            t@ == cons_list(xs.skip(rest.len() as int)),
        decreases rest.len(),
    {
        let ghost k = rest.len() as int;
        let ghost old_rest = rest@;
        match rest.pop() {
            Some(it) => {
                proof {
                    assert(old_rest == rest@.push(it));
                    lemma_push_view(rest@, it);
                    assert(xs.take(k) == terms_view(rest@).push(it@));
                    assert(xs.take(k).drop_last() =~= xs.take(k - 1));
                    assert(terms_view(rest@).push(it@).drop_last() =~= terms_view(rest@));
                    assert(terms_view(rest@) == xs.take(k - 1));
                    assert(xs.take(k)[k - 1] == it@);
                    assert(it@ == xs[k - 1]);
                    let s = xs.skip(k - 1);
                    assert(s[0] == xs[k - 1]);
                    assert(s.drop_first() =~= xs.skip(k));
                }
                let args = vec![it, t];
                proof {
                    lemma_terms_view(args@);
                    assert(terms_view(args@) =~= seq![args@[0]@, args@[1]@]);
                }
                t = Term::app("युग्म", args);
            },
            None => {},
        }
    }
    proof {
        assert(xs.skip(0) =~= xs);
    }
    t
}

fn neg_spelling(s: &String) -> (r: String)
    ensures
        r@ == neg_text(s@),
{
    let cs = crate::text::chars_of(s.as_str());
    if cs.len() > 0 && cs[0] == '-' {
        let mut out = String::new();
        let mut i: usize = 1;
        while i < cs.len()
            invariant
                1 <= i <= cs.len(),
                cs@ == s@,
                out@ == cs@.subrange(1, i as int),
            decreases cs.len() - i,
        {
            crate::text::push_char(&mut out, cs[i]);
            proof {
                assert(cs@.subrange(1, i + 1) =~= cs@.subrange(1, i as int).push(cs@[i as int]));
            }
            i = i + 1;
        }
        proof {
            assert(cs@.subrange(1, i as int) =~= s@.drop_first());
        }
        out
    } else {
        let mut out = "-".to_owned();
        push_str(&mut out, s.as_str());
        proof {
            reveal_strlit("-");
            assert(out@ =~= seq!['-'] + s@);
        }
        out
    }
}

fn prefix_exec(minus: bool, e: Term) -> (r: Term)
    ensures
        r@ == prefix_term(minus, e@),
{
    if minus {
        match e {
            Term::Int(n) => {
                if n > i64::MIN {
                    return Term::Int(-n);
                }
                let args = vec![Term::Int(n)];
                proof {
                    lemma_terms_view(args@);
                    assert(terms_view(args@) =~= seq![TermV::Int(n as int)]);
                }
                Term::app("neg", args)
            },
            Term::Float(lit) => {
                let bits = if lit.bits >= 0x8000_0000_0000_0000 {
                    lit.bits - 0x8000_0000_0000_0000
                } else {
                    lit.bits + 0x8000_0000_0000_0000
                };
                let text = neg_spelling(&lit.text);
                Term::Float(FloatLit { bits, text })
            },
            other => {
                let ghost ov = other@;
                let args = vec![other];
                proof {
                    lemma_terms_view(args@);
                    assert(terms_view(args@) =~= seq![ov]);
                }
                Term::app("neg", args)
            },
        }
    } else {
        let ghost ev = e@;
        let args = vec![e];
        proof {
            lemma_terms_view(args@);
            assert(terms_view(args@) =~= seq![ev]);
        }
        Term::app("न", args)
    }
}

fn vars_of(items: &Vec<Term>) -> (r: Option<Vec<String>>)
    ensures
        r is Some <==> all_vars(terms_view(items@)),
        r matches Some(v) ==> names_view(v@) == var_names(terms_view(items@)),
{
    let ghost xs = terms_view(items@);
    proof {
        lemma_terms_view(items@);
    }
    let mut out: Vec<String> = Vec::new();
    let mut i: usize = 0;
    while i < items.len()
        invariant
            i <= items.len(),
            xs == terms_view(items@),
            xs.len() == items.len(),
            forall|j: int| 0 <= j < items.len() ==> #[trigger] xs[j] == items@[j]@,
            forall|j: int| 0 <= j < i ==> #[trigger] xs[j] is Var,
            names_view(out@) == var_names(xs.take(i as int)),
        decreases items.len() - i,
    {
        match &items[i] {
            Term::Var(v) => {
                let ghost before = out@;
                out.push(v.clone());
                proof {
                    assert(names_view(out@) =~= names_view(before).push(v@));
                    assert(var_names(xs.take(i + 1)) =~= var_names(xs.take(i as int)).push(v@));
                }
            },
            _ => {
                proof {
                    assert(!(xs[i as int] is Var));
                }
                return None;
            },
        }
        i = i + 1;
    }
    proof {
        assert(xs.take(i as int) =~= xs);
    }
    Some(out)
}

fn e_expr<F: Fn(String) -> FloatLit>(ts: &Vec<Token>, p: usize, f: u64, fl: &F) -> (r: Result<(Term, usize), ParseError>)
    requires
        p < ts.len(),
        literal_reader_ok(*fl),
    ensures
        term_result(r) == p_expr(tokens_view(ts@), p as int, f as nat, literal_oracle(*fl)),
        pos_ok(r, ts.len() as nat),
    decreases f,
{
    if f == 0 {
        return Err(too_deep_at(ts, p));
    }
    e_expr_bp(ts, p, 0, f - 1, fl)
}

fn e_expr_bp<F: Fn(String) -> FloatLit>(ts: &Vec<Token>, p: usize, min: u8, f: u64, fl: &F) -> (r: Result<(Term, usize), ParseError>)
    requires
        p < ts.len(),
        literal_reader_ok(*fl),
    ensures
        term_result(r) == p_expr_bp(tokens_view(ts@), p as int, min, f as nat, literal_oracle(*fl)),
        pos_ok(r, ts.len() as nat),
    decreases f,
{
    if f == 0 {
        return Err(too_deep_at(ts, p));
    }
    match e_unary(ts, p, f - 1, fl) {
        Ok((lhs, p1)) => e_infix(ts, p1, min, lhs, f - 1, fl),
        Err(e) => Err(e),
    }
}

#[verifier::rlimit(30)]
fn e_infix<F: Fn(String) -> FloatLit>(ts: &Vec<Token>, p: usize, min: u8, lhs: Term, f: u64, fl: &F) -> (r: Result<(Term, usize), ParseError>)
    requires
        p < ts.len(),
        literal_reader_ok(*fl),
    ensures
        term_result(r) == p_infix(tokens_view(ts@), p as int, min, lhs@, f as nat, literal_oracle(*fl)),
        pos_ok(r, ts.len() as nat),
    decreases f,
{
    if f == 0 {
        return Err(too_deep_at(ts, p));
    }
    let ghost tv = tokens_view(ts@);
    proof {
        assert(tv[p as int] == ts@[p as int]@);
    }
    match &ts[p].tok {
        Tok::Op(o) => match binding_power(o.as_str()) {
            Some((prec, right)) => {
                if prec < min {
                    return Ok((lhs, p));
                }
                let next_min: u8 = if right {
                    prec
                } else {
                    prec + 1
                };
                let q = next_pos(ts, p);
                match e_expr_bp(ts, q, next_min, f - 1, fl) {
                    Ok((rhs, p2)) => {
                        let combined = binop(o.as_str(), lhs, rhs);
                        e_infix(ts, p2, min, combined, f - 1, fl)
                    },
                    Err(e) => Err(e),
                }
            },
            None => Ok((lhs, p)),
        },
        _ => Ok((lhs, p)),
    }
}

fn is_op(t: &Tok, o: &str) -> (r: bool)
    ensures
        r == (t@ == TokV::Op(o@)),
{
    match t {
        Tok::Op(x) => str_eq(x.as_str(), o),
        _ => false,
    }
}

fn e_unary<F: Fn(String) -> FloatLit>(ts: &Vec<Token>, p: usize, f: u64, fl: &F) -> (r: Result<(Term, usize), ParseError>)
    requires
        p < ts.len(),
        literal_reader_ok(*fl),
    ensures
        term_result(r) == p_unary(tokens_view(ts@), p as int, f as nat, literal_oracle(*fl)),
        pos_ok(r, ts.len() as nat),
    decreases f,
{
    if f == 0 {
        return Err(too_deep_at(ts, p));
    }
    let ghost tv = tokens_view(ts@);
    proof {
        assert(tv[p as int] == ts@[p as int]@);
    }
    let minus = is_op(&ts[p].tok, "-");
    if minus || is_op(&ts[p].tok, "!") {
        let q = next_pos(ts, p);
        match e_unary(ts, q, f - 1, fl) {
            Ok((e, p1)) => Ok((prefix_exec(minus, e), p1)),
            Err(e) => Err(e),
        }
    } else {
        match e_primary(ts, p, f - 1, fl) {
            Ok((e, p1)) => e_postfix(ts, p1, e, f - 1, fl),
            Err(e) => Err(e),
        }
    }
}

#[verifier::rlimit(30)]
fn e_postfix<F: Fn(String) -> FloatLit>(ts: &Vec<Token>, p: usize, e: Term, f: u64, fl: &F) -> (r: Result<(Term, usize), ParseError>)
    requires
        p < ts.len(),
        literal_reader_ok(*fl),
    ensures
        term_result(r) == p_postfix(tokens_view(ts@), p as int, e@, f as nat, literal_oracle(*fl)),
        pos_ok(r, ts.len() as nat),
    decreases f,
{
    if f == 0 {
        return Err(too_deep_at(ts, p));
    }
    let ghost tv = tokens_view(ts@);
    proof {
        assert(tv[p as int] == ts@[p as int]@);
    }
    if matches!(ts[p].tok, Tok::LParen) {
        let q = next_pos(ts, p);
        proof {
            assert(tv[q as int] == ts@[q as int]@);
        }
        let args = if matches!(ts[q].tok, Tok::RParen) {
            let none: Vec<Term> = Vec::new();
            proof {
                assert(terms_view(none@) =~= Seq::<TermV>::empty());
            }
            Ok((none, q))
        } else {
            let acc: Vec<Term> = Vec::new();
            proof {
                assert(terms_view(acc@) =~= Seq::<TermV>::empty());
            }
            e_items(ts, q, acc, f - 1, fl)
        };
        match args {
            Ok((xs, p1)) => match expect(ts, p1, &Tok::RParen, "')'") {
                Ok(p2) => {
                    let applied = apply_value(e, xs);
                    e_postfix(ts, p2, applied, f - 1, fl)
                },
                Err(err) => Err(err),
            },
            Err(err) => Err(err),
        }
    } else if matches!(ts[p].tok, Tok::Dot) {
        let q = next_pos(ts, p);
        proof {
            assert(tv[q as int] == ts@[q as int]@);
        }
        match &ts[q].tok {
            Tok::Ident(field) => {
                let ghost ev = e@;
                let args = vec![e, Term::Str(field.clone())];
                proof {
                    lemma_terms_view(args@);
                    assert(terms_view(args@) =~= seq![ev, TermV::Str(field@)]);
                }
                let get = Term::app("प्राप्ति", args);
                let q2 = next_pos(ts, q);
                e_postfix(ts, q2, get, f - 1, fl)
            },
            _ => Err(err_expected(ts, q, "a field name after '.'")),
        }
    } else {
        Ok((e, p))
    }
}

fn e_items<F: Fn(String) -> FloatLit>(ts: &Vec<Token>, p: usize, acc: Vec<Term>, f: u64, fl: &F) -> (r: Result<(Vec<Term>, usize), ParseError>)
    requires
        p < ts.len(),
        literal_reader_ok(*fl),
    ensures
        items_result(r) == p_items(tokens_view(ts@), p as int, terms_view(acc@), f as nat, literal_oracle(*fl)),
        pos_ok(r, ts.len() as nat),
    decreases f,
{
    if f == 0 {
        return Err(too_deep_at(ts, p));
    }
    let ghost tv = tokens_view(ts@);
    match e_expr(ts, p, f - 1, fl) {
        Ok((e, p1)) => {
            proof {
                assert(tv[p1 as int] == ts@[p1 as int]@);
                lemma_push_view(acc@, e);
            }
            let mut acc2 = acc;
            acc2.push(e);
            if matches!(ts[p1].tok, Tok::Comma) {
                let q = next_pos(ts, p1);
                e_items(ts, q, acc2, f - 1, fl)
            } else {
                Ok((acc2, p1))
            }
        },
        Err(err) => Err(err),
    }
}

#[verifier::rlimit(30)]
fn e_entries<F: Fn(String) -> FloatLit>(ts: &Vec<Token>, p: usize, acc: Term, f: u64, fl: &F) -> (r: Result<(Term, usize), ParseError>)
    requires
        p < ts.len(),
        literal_reader_ok(*fl),
    ensures
        term_result(r) == p_entries(tokens_view(ts@), p as int, acc@, f as nat, literal_oracle(*fl)),
        pos_ok(r, ts.len() as nat),
    decreases f,
{
    if f == 0 {
        return Err(too_deep_at(ts, p));
    }
    let ghost tv = tokens_view(ts@);
    proof {
        assert(tv[p as int] == ts@[p as int]@);
    }
    let key = match &ts[p].tok {
        Tok::Ident(name) => Ok((Term::Str(name.clone()), next_pos(ts, p))),
        _ => e_expr(ts, p, f - 1, fl),
    };
    match key {
        Ok((k, p1)) => match expect(ts, p1, &Tok::Colon, "':' in map entry") {
            Ok(p2) => match e_expr(ts, p2, f - 1, fl) {
                Ok((v, p3)) => {
                    let ghost (av, kv, vv) = (acc@, k@, v@);
                    let args = vec![acc, k, v];
                    proof {
                        lemma_terms_view(args@);
                        assert(terms_view(args@) =~= seq![av, kv, vv]);
                        assert(tv[p3 as int] == ts@[p3 as int]@);
                    }
                    let m = Term::app("समावेश", args);
                    if matches!(ts[p3].tok, Tok::Comma) {
                        let q = next_pos(ts, p3);
                        e_entries(ts, q, m, f - 1, fl)
                    } else {
                        Ok((m, p3))
                    }
                },
                Err(err) => Err(err),
            },
            Err(err) => Err(err),
        },
        Err(err) => Err(err),
    }
}

fn read_float<F: Fn(String) -> FloatLit>(s: &String, fl: &F) -> (r: FloatLit)
    requires
        literal_reader_ok(*fl),
    ensures
        (r.bits, r.text@) == literal_oracle(*fl)(s@),
{
    let a = s.clone();
    let ghost a0 = a;
    let r = fl(a);
    proof {
        assert(fl.ensures((a0,), r));
        let (a1, r1) = choose|a1: String, r1: FloatLit| a1@ == s@ && #[trigger] fl.ensures((a1,), r1);
        assert(fl.ensures((a1,), r1));
    }
    r
}

#[verifier::rlimit(30)]
fn e_primary<F: Fn(String) -> FloatLit>(ts: &Vec<Token>, p: usize, f: u64, fl: &F) -> (r: Result<(Term, usize), ParseError>)
    requires
        p < ts.len(),
        literal_reader_ok(*fl),
    ensures
        term_result(r) == p_primary(tokens_view(ts@), p as int, f as nat, literal_oracle(*fl)),
        pos_ok(r, ts.len() as nat),
    decreases f,
{
    if f == 0 {
        return Err(too_deep_at(ts, p));
    }
    let ghost tv = tokens_view(ts@);
    let q = next_pos(ts, p);
    proof {
        assert(tv[p as int] == ts@[p as int]@);
        assert(tv[q as int] == ts@[q as int]@);
    }
    match &ts[p].tok {
        Tok::Int(n) => Ok((Term::Int(*n), q)),
        Tok::Big(b) => Ok((Term::Big(b.clone()), q)),
        Tok::Float(s) => Ok((Term::Float(read_float(s, fl)), q)),
        Tok::Str(s) => Ok((Term::Str(s.clone()), q)),
        Tok::Var(v) => Ok((Term::Var(v.clone()), q)),
        Tok::Ident(name) => {
            let args: Vec<Term> = Vec::new();
            proof {
                assert(terms_view(args@) =~= Seq::<TermV>::empty());
            }
            Ok((Term::Sym(canonical(name.as_str()), args), q))
        },
        Tok::LBrack => e_list(ts, q, f - 1, fl),
        Tok::LBrace => e_map(ts, q, f - 1, fl),
        Tok::LParen => e_paren(ts, q, f - 1, fl),
        Tok::KwLet => match &ts[q].tok {
            Tok::Var(v) => e_let_rest(ts, next_pos(ts, q), v.clone(), f - 1, fl),
            Tok::Ident(v) => e_let_rest(ts, next_pos(ts, q), v.clone(), f - 1, fl),
            _ => Err(err_expected(ts, q, "a binder name after let")),
        },
        Tok::KwIf => e_if(ts, q, f - 1, fl),
        Tok::KwDo => e_do(ts, q, f - 1, fl),
        _ => Err(err_expected(ts, p, "an expression")),
    }
}

fn e_list<F: Fn(String) -> FloatLit>(ts: &Vec<Token>, q: usize, f: u64, fl: &F) -> (r: Result<(Term, usize), ParseError>)
    requires
        q < ts.len(),
        literal_reader_ok(*fl),
    ensures
        term_result(r) == p_list(tokens_view(ts@), q as int, f as nat, literal_oracle(*fl)),
        pos_ok(r, ts.len() as nat),
    decreases f,
{
    if f == 0 {
        return Err(too_deep_at(ts, q));
    }
    let ghost tv = tokens_view(ts@);
    proof {
        assert(tv[q as int] == ts@[q as int]@);
    }
    let items = if matches!(ts[q].tok, Tok::RBrack) {
        let none: Vec<Term> = Vec::new();
        proof {
            assert(terms_view(none@) =~= Seq::<TermV>::empty());
        }
        Ok((none, q))
    } else {
        let acc: Vec<Term> = Vec::new();
        proof {
            assert(terms_view(acc@) =~= Seq::<TermV>::empty());
        }
        e_items(ts, q, acc, f - 1, fl)
    };
    match items {
        Ok((xs, p1)) => match expect(ts, p1, &Tok::RBrack, "']'") {
            Ok(p2) => Ok((cons_list_exec(xs), p2)),
            Err(err) => Err(err),
        },
        Err(err) => Err(err),
    }
}

fn e_map<F: Fn(String) -> FloatLit>(ts: &Vec<Token>, q: usize, f: u64, fl: &F) -> (r: Result<(Term, usize), ParseError>)
    requires
        q < ts.len(),
        literal_reader_ok(*fl),
    ensures
        term_result(r) == p_map(tokens_view(ts@), q as int, f as nat, literal_oracle(*fl)),
        pos_ok(r, ts.len() as nat),
    decreases f,
{
    if f == 0 {
        return Err(too_deep_at(ts, q));
    }
    let ghost tv = tokens_view(ts@);
    proof {
        assert(tv[q as int] == ts@[q as int]@);
    }
    let empty = Term::con("रिक्तकोश");
    let body = if matches!(ts[q].tok, Tok::RBrace) {
        Ok((empty, q))
    } else {
        e_entries(ts, q, empty, f - 1, fl)
    };
    match body {
        Ok((m, p1)) => match expect(ts, p1, &Tok::RBrace, "'}'") {
            Ok(p2) => Ok((m, p2)),
            Err(err) => Err(err),
        },
        Err(err) => Err(err),
    }
}

#[verifier::rlimit(30)]
fn e_paren<F: Fn(String) -> FloatLit>(ts: &Vec<Token>, q: usize, f: u64, fl: &F) -> (r: Result<(Term, usize), ParseError>)
    requires
        q < ts.len(),
        literal_reader_ok(*fl),
    ensures
        term_result(r) == p_paren(tokens_view(ts@), q as int, f as nat, literal_oracle(*fl)),
        pos_ok(r, ts.len() as nat),
    decreases f,
{
    if f == 0 {
        return Err(too_deep_at(ts, q));
    }
    let ghost tv = tokens_view(ts@);
    proof {
        assert(tv[q as int] == ts@[q as int]@);
    }
    if matches!(ts[q].tok, Tok::RParen) {
        let q1 = next_pos(ts, q);
        match expect(ts, q1, &Tok::FatArrow, "'=>' (lambda)") {
            Ok(p1) => match e_expr(ts, p1, f - 1, fl) {
                Ok((body, p2)) => {
                    let params: Vec<String> = Vec::new();
                    proof {
                        assert(names_view(params@) =~= Seq::<Seq<char>>::empty());
                    }
                    Ok((Term::Lam(params, Box::new(body)), p2))
                },
                Err(err) => Err(err),
            },
            Err(err) => Err(err),
        }
    } else {
        let acc: Vec<Term> = Vec::new();
        proof {
            assert(terms_view(acc@) =~= Seq::<TermV>::empty());
        }
        match e_items(ts, q, acc, f - 1, fl) {
            Ok((xs, p1)) => match expect(ts, p1, &Tok::RParen, "')'") {
                Ok(p2) => {
                    proof {
                        assert(tv[p2 as int] == ts@[p2 as int]@);
                        lemma_terms_view(xs@);
                    }
                    if matches!(ts[p2].tok, Tok::FatArrow) {
                        match vars_of(&xs) {
                            Some(params) => {
                                let p3 = next_pos(ts, p2);
                                match e_expr(ts, p3, f - 1, fl) {
                                    Ok((body, p4)) => Ok((Term::Lam(params, Box::new(body)), p4)),
                                    Err(err) => Err(err),
                                }
                            },
                            None => Err(err_at(ts, p2, "lambda parameters must be variables like ?x")),
                        }
                    } else if xs.len() == 1 {
                        let mut xs = xs;
                        let ghost xv = xs@;
                        let only = xs.remove(0);
                        proof {
                            assert(only == xv[0]);
                        }
                        Ok((only, p2))
                    } else {
                        Ok((Term::app("रचना", xs), p2))
                    }
                },
                Err(err) => Err(err),
            },
            Err(err) => Err(err),
        }
    }
}

#[verifier::rlimit(30)]
fn e_if<F: Fn(String) -> FloatLit>(ts: &Vec<Token>, q: usize, f: u64, fl: &F) -> (r: Result<(Term, usize), ParseError>)
    requires
        q < ts.len(),
        literal_reader_ok(*fl),
    ensures
        term_result(r) == p_if(tokens_view(ts@), q as int, f as nat, literal_oracle(*fl)),
        pos_ok(r, ts.len() as nat),
    decreases f,
{
    if f == 0 {
        return Err(too_deep_at(ts, q));
    }
    match e_expr(ts, q, f - 1, fl) {
        Ok((c, p1)) => match expect(ts, p1, &Tok::KwThen, "then") {
            Ok(p2) => match e_expr(ts, p2, f - 1, fl) {
                Ok((a, p3)) => match expect(ts, p3, &Tok::KwElse, "else") {
                    Ok(p4) => match e_expr(ts, p4, f - 1, fl) {
                        Ok((b, p5)) => {
                            let ghost (cv, av, bv) = (c@, a@, b@);
                            let args = vec![c, a, b];
                            proof {
                                lemma_terms_view(args@);
                                assert(terms_view(args@) =~= seq![cv, av, bv]);
                            }
                            Ok((Term::app("यदि", args), p5))
                        },
                        Err(err) => Err(err),
                    },
                    Err(err) => Err(err),
                },
                Err(err) => Err(err),
            },
            Err(err) => Err(err),
        },
        Err(err) => Err(err),
    }
}

fn e_do<F: Fn(String) -> FloatLit>(ts: &Vec<Token>, q: usize, f: u64, fl: &F) -> (r: Result<(Term, usize), ParseError>)
    requires
        q < ts.len(),
        literal_reader_ok(*fl),
    ensures
        term_result(r) == p_do(tokens_view(ts@), q as int, f as nat, literal_oracle(*fl)),
        pos_ok(r, ts.len() as nat),
    decreases f,
{
    if f == 0 {
        return Err(too_deep_at(ts, q));
    }
    match expect(ts, q, &Tok::LBrace, "'{'") {
        Ok(p1) => match e_stmts(ts, p1, f - 1, fl) {
            Ok((t, p2)) => match expect(ts, p2, &Tok::RBrace, "'}'") {
                Ok(p3) => Ok((t, p3)),
                Err(err) => Err(err),
            },
            Err(err) => Err(err),
        },
        Err(err) => Err(err),
    }
}

#[verifier::rlimit(40)]
fn e_stmts<F: Fn(String) -> FloatLit>(ts: &Vec<Token>, p: usize, f: u64, fl: &F) -> (r: Result<(Term, usize), ParseError>)
    requires
        p < ts.len(),
        literal_reader_ok(*fl),
    ensures
        term_result(r) == p_stmts(tokens_view(ts@), p as int, f as nat, literal_oracle(*fl)),
        pos_ok(r, ts.len() as nat),
    decreases f,
{
    if f == 0 {
        return Err(too_deep_at(ts, p));
    }
    let ghost tv = tokens_view(ts@);
    let q = next_pos(ts, p);
    proof {
        assert(tv[p as int] == ts@[p as int]@);
        assert(tv[q as int] == ts@[q as int]@);
    }
    if let Tok::Var(v) = &ts[p].tok {
        if matches!(ts[q].tok, Tok::LArrow) {
            let q1 = next_pos(ts, q);
            return match e_expr(ts, q1, f - 1, fl) {
                Ok((m, p1)) => match expect(ts, p1, &Tok::Danda, "daṇḍa after a binding") {
                    Ok(p2) => match e_stmts(ts, p2, f - 1, fl) {
                        Ok((rest, p3)) => {
                            let ghost (mv, rv) = (m@, rest@);
                            let params = vec![v.clone()];
                            proof {
                                assert(names_view(params@) =~= seq![v@]);
                            }
                            let lam = Term::Lam(params, Box::new(rest));
                            assert(lam@ == TermV::Lam(seq![v@], Box::new(rv)));
                            let args = vec![m, lam];
                            proof {
                                lemma_terms_view(args@);
                                assert(terms_view(args@) =~= seq![mv, TermV::Lam(seq![v@], Box::new(rv))]);
                            }
                            Ok((Term::app("बन्ध", args), p3))
                        },
                        Err(err) => Err(err),
                    },
                    Err(err) => Err(err),
                },
                Err(err) => Err(err),
            };
        }
    }
    match e_expr(ts, p, f - 1, fl) {
        Ok((e, p1)) => {
            let n1 = next_pos(ts, p1);
            proof {
                assert(tv[p1 as int] == ts@[p1 as int]@);
                assert(tv[n1 as int] == ts@[n1 as int]@);
            }
            if matches!(ts[p1].tok, Tok::Danda) && !matches!(ts[n1].tok, Tok::RBrace) {
                match e_stmts(ts, n1, f - 1, fl) {
                    Ok((rest, p3)) => {
                        let ghost (ev, rv) = (e@, rest@);
                        let args = vec![e, rest];
                        proof {
                            lemma_terms_view(args@);
                            assert(terms_view(args@) =~= seq![ev, rv]);
                        }
                        Ok((Term::app("अनुक्रम", args), p3))
                    },
                    Err(err) => Err(err),
                }
            } else if matches!(ts[p1].tok, Tok::Danda) {
                Ok((e, n1))
            } else {
                Ok((e, p1))
            }
        },
        Err(err) => Err(err),
    }
}

#[verifier::rlimit(30)]
fn e_let_rest<F: Fn(String) -> FloatLit>(ts: &Vec<Token>, p: usize, v: String, f: u64, fl: &F) -> (r: Result<(Term, usize), ParseError>)
    requires
        p < ts.len(),
        literal_reader_ok(*fl),
    ensures
        term_result(r) == p_let_rest(tokens_view(ts@), p as int, v@, f as nat, literal_oracle(*fl)),
        pos_ok(r, ts.len() as nat),
    decreases f,
{
    if f == 0 {
        return Err(too_deep_at(ts, p));
    }
    match expect(ts, p, &Tok::Eq, "'='") {
        Ok(p1) => match e_expr(ts, p1, f - 1, fl) {
            Ok((bound, p2)) => match expect(ts, p2, &Tok::KwIn, "in") {
                Ok(p3) => match e_expr(ts, p3, f - 1, fl) {
                    Ok((body, p4)) => {
                        let ghost (bv, dv, vv) = (bound@, body@, v@);
                        let params = vec![v];
                        let args = vec![bound];
                        proof {
                            lemma_terms_view(args@);
                            assert(terms_view(args@) =~= seq![bv]);
                            assert(names_view(params@) =~= seq![vv]);
                        }
                        let lam = Term::Lam(params, Box::new(body));
                        assert(lam@ == TermV::Lam(seq![vv], Box::new(dv)));
                        let app = Term::App(Box::new(lam), args);
                        assert(app@ == TermV::App(Box::new(TermV::Lam(seq![vv], Box::new(dv))), seq![bv]));
                        Ok((app, p4))
                    },
                    Err(err) => Err(err),
                },
                Err(err) => Err(err),
            },
            Err(err) => Err(err),
        },
        Err(err) => Err(err),
    }
}

// ---------------------------------------------------------------------------
// Whole inputs.
/// A lexing error as a parse error.
pub open spec fn from_lex(e: crate::lexer::LexErrorV) -> ParseErrorV {
    ParseErrorV { msg: e.msg, line: e.line }
}

/// After an expression at `p`: an optional daṇḍa, then the end of input.
pub open spec fn finish_expr(ts: Seq<TokenV>, t: TermV, p: int) -> Result<TermV, ParseErrorV> {
    let p2 = if ts[p].tok is Danda {
        next(ts, p)
    } else {
        p
    };
    if ts[p2].tok is Eof {
        Ok(t)
    } else {
        Err(error_at(ts, p2, "unexpected trailing input: "@ + describe(ts[p2].tok)))
    }
}

/// One expression read from source: the whole input, with an optional
/// closing daṇḍa.
pub open spec fn parse_expr_spec(src: Seq<char>, fl: spec_fn(Seq<char>) -> (u64, Seq<char>)) -> Result<
    TermV,
    ParseErrorV,
> {
    match crate::lexer::lex_spec(src) {
        Err(e) => Err(from_lex(e)),
        Ok(ts) => match p_expr(ts, 0, PARSE_DEPTH as nat, fl) {
            Ok((t, p)) => finish_expr(ts, t, p),
            Err(e) => Err(e),
        },
    }
}

/// Parse one expression. Floating-point literals are read by `float`.
pub fn parse_expr<F: Fn(String) -> FloatLit>(src: &str, float: &F) -> (r: Result<Term, ParseError>)
    requires
        src@.len() < usize::MAX,
        literal_reader_ok(*float),
    ensures
        match r {
            Ok(t) => parse_expr_spec(src@, literal_oracle(*float)) == Ok::<TermV, ParseErrorV>(t@),
            Err(e) => parse_expr_spec(src@, literal_oracle(*float)) == Err::<TermV, ParseErrorV>(e@),
        },
{
    let ts = match crate::lexer::lex(src) {
        Ok(ts) => ts,
        Err(e) => {
            return Err(ParseError { msg: e.msg, line: e.line });
        },
    };
    proof {
        crate::lexer::lemma_lexed_stream_shape(src@);
    }
    let ghost tv = tokens_view(ts@);
    match e_expr(&ts, 0, PARSE_DEPTH, float) {
        Ok((t, p)) => {
            proof {
                assert(tv[p as int] == ts@[p as int]@);
            }
            let p2 = if matches!(ts[p].tok, Tok::Danda) {
                next_pos(&ts, p)
            } else {
                p
            };
            proof {
                assert(tv[p2 as int] == ts@[p2 as int]@);
            }
            if matches!(ts[p2].tok, Tok::Eof) {
                Ok(t)
            } else {
                let mut msg = "unexpected trailing input: ".to_owned();
                let d = describe_tok(&ts[p2].tok);
                push_str(&mut msg, d.as_str());
                proof {
                    reveal_strlit("unexpected trailing input: ");
                    assert(msg@ =~= "unexpected trailing input: "@ + describe(tv[p2 as int].tok));
                }
                Err(ParseError { msg, line: ts[p2].line })
            }
        },
        Err(e) => Err(e),
    }
}

// ---------------------------------------------------------------------------
// Declarations.
/// One declaration, viewed.
pub enum DeclV {
    Rule(RuleV),
    Samjna(SamjnaV),
    Section,
    Prayoga(TermV),
    Import(Seq<char>),
    Class(ClassV),
    Krama(SeqSystemV),
    Inventory(Seq<SivaSutraV>),
}

/// A program with one more declaration.
pub open spec fn add_decl(prog: ProgramV, d: DeclV) -> ProgramV {
    match d {
        DeclV::Rule(r) => ProgramV { rules: prog.rules.push(r), ..prog },
        DeclV::Samjna(x) => ProgramV { samjnas: prog.samjnas.push(x), ..prog },
        DeclV::Section => prog,
        DeclV::Prayoga(t) => ProgramV { prayogas: prog.prayogas.push(t), ..prog },
        DeclV::Import(path) => ProgramV { imports: prog.imports.push(path), ..prog },
        DeclV::Class(c) => ProgramV { classes: prog.classes.push(c), ..prog },
        DeclV::Krama(k) => ProgramV { seq: prog.seq.push(k), ..prog },
        DeclV::Inventory(lines) => ProgramV { inventory: prog.inventory + lines, ..prog },
    }
}

/// Comma-separated names (variables or identifiers) after those in `acc`.
pub open spec fn p_names(ts: Seq<TokenV>, p: int, acc: Seq<Seq<char>>, f: nat) -> Result<(Seq<Seq<char>>, int), ParseErrorV>
    decreases f,
{
    if f == 0 {
        Err(too_deep(ts, p))
    } else {
        let name = match ts[p].tok {
            TokV::Var(v) => Some(v),
            TokV::Ident(v) => Some(v),
            _ => None,
        };
        match name {
            Some(v) => {
                let q = next(ts, p);
                if ts[q].tok is Comma {
                    p_names(ts, next(ts, q), acc.push(v), (f - 1) as nat)
                } else {
                    Ok((acc.push(v), q))
                }
            },
            None => Err(expected(ts, p, "a name"@)),
        }
    }
}

/// Alternatives separated by `|` after those in `acc`.
pub open spec fn p_alts(ts: Seq<TokenV>, p: int, acc: Seq<TermV>, f: nat, fl: spec_fn(Seq<char>) -> (u64, Seq<char>)) -> Result<
    (Seq<TermV>, int),
    ParseErrorV,
>
    decreases f,
{
    if f == 0 {
        Err(too_deep(ts, p))
    } else {
        match p_expr(ts, p, PARSE_DEPTH as nat, fl) {
            Ok((e, p1)) => if ts[p1].tok is Bar {
                p_alts(ts, next(ts, p1), acc.push(e), (f - 1) as nat, fl)
            } else {
                Ok((acc.push(e), p1))
            },
            Err(err) => Err(err),
        }
    }
}

/// A bracketed list of expressions at `p`: `[` items `]`.
pub open spec fn p_bracketed(ts: Seq<TokenV>, p: int, fl: spec_fn(Seq<char>) -> (u64, Seq<char>)) -> Result<
    (Seq<TermV>, int),
    ParseErrorV,
> {
    match p_expect(ts, p, TokV::LBrack, "'['"@) {
        Ok(q) => {
            let items = if ts[q].tok is RBrack {
                Ok((Seq::<TermV>::empty(), q))
            } else {
                p_items(ts, q, Seq::empty(), PARSE_DEPTH as nat, fl)
            };
            match items {
                Ok((xs, p1)) => match p_expect(ts, p1, TokV::RBrack, "']'"@) {
                    Ok(p2) => Ok((xs, p2)),
                    Err(err) => Err(err),
                },
                Err(err) => Err(err),
            }
        },
        Err(err) => Err(err),
    }
}

/// A token that ends a sequence-rule element.
pub open spec fn ends_elem(t: TokV) -> bool {
    t is Comma || t is RBrack
}

/// A sequence-rule element: `^` and `$` anchor at the start and the end,
/// `?v*` and `?v:गण*` match a run (of class members), `?v:गण` binds a
/// member of a class, anything else is a pattern.
pub open spec fn p_elem(ts: Seq<TokenV>, p: int, fl: spec_fn(Seq<char>) -> (u64, Seq<char>)) -> Result<(TermV, int), ParseErrorV> {
    let q = next(ts, p);
    let r = next(ts, q);
    let u = next(ts, r);
    let star = TokV::Op("*"@);
    if ts[p].tok == TokV::Op("^"@) {
        Ok((TermV::Sym("@आदि"@, Seq::empty()), q))
    } else if ts[p].tok == TokV::Op("$"@) {
        Ok((TermV::Sym("@अन्त"@, Seq::empty()), q))
    } else if ts[p].tok is Var && ts[q].tok == star && ends_elem(ts[r].tok) {
        Ok((TermV::Sym("@तारा"@, seq![TermV::Var(ts[p].tok->Var_0)]), r))
    } else if ts[p].tok is Var && ts[q].tok is Colon && ts[r].tok is Ident {
        let v = TermV::Var(ts[p].tok->Var_0);
        let cls = TermV::Sym(canonical_spec(ts[r].tok->Ident_0), Seq::empty());
        if ts[u].tok == star && ends_elem(ts[next(ts, u)].tok) {
            Ok((TermV::Sym("@तारा"@, seq![v, cls]), next(ts, u)))
        } else {
            Ok((TermV::Sym("@गण"@, seq![v, cls]), u))
        }
    } else {
        p_expr(ts, p, PARSE_DEPTH as nat, fl)
    }
}

/// Elements in brackets at `p`: `[` elements `]`.
pub open spec fn p_elem_list(ts: Seq<TokenV>, p: int, fl: spec_fn(Seq<char>) -> (u64, Seq<char>)) -> Result<
    (Seq<TermV>, int),
    ParseErrorV,
> {
    match p_expect(ts, p, TokV::LBrack, "'['"@) {
        Ok(q) => {
            let items = if ts[q].tok is RBrack {
                Ok((Seq::<TermV>::empty(), q))
            } else {
                p_elems(ts, q, Seq::empty(), ts.len(), fl)
            };
            match items {
                Ok((xs, p1)) => match p_expect(ts, p1, TokV::RBrack, "']'"@) {
                    Ok(p2) => Ok((xs, p2)),
                    Err(err) => Err(err),
                },
                Err(err) => Err(err),
            }
        },
        Err(err) => Err(err),
    }
}

/// Comma-separated elements after those in `acc`.
pub open spec fn p_elems(ts: Seq<TokenV>, p: int, acc: Seq<TermV>, f: nat, fl: spec_fn(Seq<char>) -> (u64, Seq<char>)) -> Result<
    (Seq<TermV>, int),
    ParseErrorV,
>
    decreases f,
{
    if f == 0 {
        Err(too_deep(ts, p))
    } else {
        match p_elem(ts, p, fl) {
            Ok((e, p1)) => if ts[p1].tok is Comma {
                p_elems(ts, next(ts, p1), acc.push(e), (f - 1) as nat, fl)
            } else {
                Ok((acc.push(e), p1))
            },
            Err(err) => Err(err),
        }
    }
}

/// One sequence rule at `p`: `[elements] -> [elements]` and a daṇḍa.
pub open spec fn p_seq_rule(ts: Seq<TokenV>, p: int, fl: spec_fn(Seq<char>) -> (u64, Seq<char>)) -> Result<(SeqRuleV, int), ParseErrorV> {
    match p_elem_list(ts, p, fl) {
        Ok((l, p2)) => match p_expect(ts, p2, TokV::Arrow, "'->'"@) {
            Ok(p3) => match p_elem_list(ts, p3, fl) {
                Ok((r, p4)) => match p_expect(ts, p4, TokV::Danda, "daṇḍa after a क्रम rule"@) {
                    Ok(p5) => Ok((SeqRuleV { lhs: l, rhs: r }, p5)),
                    Err(err) => Err(err),
                },
                Err(err) => Err(err),
            },
            Err(err) => Err(err),
        },
        Err(err) => Err(err),
    }
}

/// Sequence rules up to the closing brace, after those in `acc`.
pub open spec fn p_seq_rules(ts: Seq<TokenV>, p: int, acc: Seq<SeqRuleV>, f: nat, fl: spec_fn(Seq<char>) -> (u64, Seq<char>)) -> Result<
    (Seq<SeqRuleV>, int),
    ParseErrorV,
>
    decreases f,
{
    if f == 0 {
        Err(too_deep(ts, p))
    } else if ts[p].tok is RBrace {
        Ok((acc, next(ts, p)))
    } else {
        match p_seq_rule(ts, p, fl) {
            Ok((r, p1)) => p_seq_rules(ts, p1, acc.push(r), (f - 1) as nat, fl),
            Err(err) => Err(err),
        }
    }
}

/// One inventory line at `p`: `[sounds] -> marker` and a daṇḍa.
pub open spec fn p_sutra_line(ts: Seq<TokenV>, p: int) -> Result<(SivaSutraV, int), ParseErrorV> {
    match p_expect(ts, p, TokV::LBrack, "'['"@) {
        Ok(q) => match p_names(ts, q, Seq::empty(), ts.len()) {
            Ok((sounds, p1)) => match p_expect(ts, p1, TokV::RBrack, "']'"@) {
                Ok(p2) => match p_expect(ts, p2, TokV::Arrow, "'->'"@) {
                    Ok(p3) => match ts[p3].tok {
                        TokV::Ident(m) => match p_expect(ts, next(ts, p3), TokV::Danda, "daṇḍa after a śivasūtra"@) {
                            Ok(p4) => Ok((SivaSutraV { sounds, marker: m }, p4)),
                            Err(err) => Err(err),
                        },
                        _ => Err(expected(ts, p3, "a marker"@)),
                    },
                    Err(err) => Err(err),
                },
                Err(err) => Err(err),
            },
            Err(err) => Err(err),
        },
        Err(err) => Err(err),
    }
}

/// Inventory lines up to the closing brace, after those in `acc`.
pub open spec fn p_sutra_lines(ts: Seq<TokenV>, p: int, acc: Seq<SivaSutraV>, f: nat) -> Result<(Seq<SivaSutraV>, int), ParseErrorV>
    decreases f,
{
    if f == 0 {
        Err(too_deep(ts, p))
    } else if ts[p].tok is RBrace {
        Ok((acc, next(ts, p)))
    } else {
        match p_sutra_line(ts, p) {
            Ok((l, p1)) => p_sutra_lines(ts, p1, acc.push(l), (f - 1) as nat),
            Err(err) => Err(err),
        }
    }
}

/// The words that declare a śivasūtra inventory.
pub open spec fn is_inventory_word(w: Seq<char>) -> bool {
    w == "शिवसूत्र"@ || w == "shivasutra"@ || w == "sivasutra"@ || w == "inventory"@
}

/// A name, canonicalised.
pub open spec fn p_name(ts: Seq<TokenV>, p: int) -> Result<(Seq<char>, int), ParseErrorV> {
    match ts[p].tok {
        TokV::Ident(n) => Ok((canonical_spec(n), next(ts, p))),
        _ => Err(expected(ts, p, "a name"@)),
    }
}

/// A rule after `सूत्र`: `lhs [| guard] -> rhs` and a daṇḍa; it is the
/// `order`-th rule.
pub open spec fn p_rule(ts: Seq<TokenV>, q: int, order: nat, fl: spec_fn(Seq<char>) -> (u64, Seq<char>)) -> Result<(DeclV, int), ParseErrorV> {
    match p_expr(ts, q, PARSE_DEPTH as nat, fl) {
        Ok((lhs, p1)) => {
            let guard = if ts[p1].tok is Bar {
                match p_expr(ts, next(ts, p1), PARSE_DEPTH as nat, fl) {
                    Ok((g, p2)) => Ok((Some(g), p2)),
                    Err(err) => Err(err),
                }
            } else {
                Ok((None::<TermV>, p1))
            };
            match guard {
                Ok((g, p2)) => match p_expect(ts, p2, TokV::Arrow, "'->'"@) {
                    Ok(p3) => match p_expr(ts, p3, PARSE_DEPTH as nat, fl) {
                        Ok((rhs, p4)) => match p_expect(ts, p4, TokV::Danda, "daṇḍa after rule"@) {
                            Ok(p5) => Ok((DeclV::Rule(RuleV { lhs, guard: g, rhs, order }), p5)),
                            Err(err) => Err(err),
                        },
                        Err(err) => Err(err),
                    },
                    Err(err) => Err(err),
                },
                Err(err) => Err(err),
            }
        },
        Err(err) => Err(err),
    }
}

/// A saṃjñā after `संज्ञा`: `NAME [(params)] := alt | …` and a daṇḍa.
pub open spec fn p_samjna(ts: Seq<TokenV>, q: int, fl: spec_fn(Seq<char>) -> (u64, Seq<char>)) -> Result<(DeclV, int), ParseErrorV> {
    match p_name(ts, q) {
        Ok((name, p1)) => {
            let params = if ts[p1].tok is LParen {
                let p2 = next(ts, p1);
                let names = if ts[p2].tok is RParen {
                    Ok((Seq::<Seq<char>>::empty(), p2))
                } else {
                    p_names(ts, p2, Seq::empty(), ts.len())
                };
                match names {
                    Ok((ns, p3)) => match p_expect(ts, p3, TokV::RParen, "')'"@) {
                        Ok(p4) => Ok((ns, p4)),
                        Err(err) => Err(err),
                    },
                    Err(err) => Err(err),
                }
            } else {
                Ok((Seq::<Seq<char>>::empty(), p1))
            };
            match params {
                Ok((ps, p2)) => match p_expect(ts, p2, TokV::Define, "':='"@) {
                    Ok(p3) => match p_alts(ts, p3, Seq::empty(), ts.len(), fl) {
                        Ok((alts, p4)) => match p_expect(ts, p4, TokV::Danda, "daṇḍa after संज्ञा"@) {
                            Ok(p5) => Ok((DeclV::Samjna(SamjnaV { name, params: ps, alts }), p5)),
                            Err(err) => Err(err),
                        },
                        Err(err) => Err(err),
                    },
                    Err(err) => Err(err),
                },
                Err(err) => Err(err),
            }
        },
        Err(err) => Err(err),
    }
}

/// A class after `गण`: `NAME := [members]` or `NAME := प्रत्याहार(start,
/// marker)`, and a daṇḍa. A pratyāhāra is derived from the inventory
/// declared so far.
pub open spec fn p_class(ts: Seq<TokenV>, q: int, inv: Seq<SivaSutraV>, fl: spec_fn(Seq<char>) -> (u64, Seq<char>)) -> Result<
    (DeclV, int),
    ParseErrorV,
> {
    match p_name(ts, q) {
        Ok((name, p1)) => match p_expect(ts, p1, TokV::Define, "':='"@) {
            Ok(p2) => {
                let a = next(ts, p2);
                let b = next(ts, a);
                let c = next(ts, b);
                let d = next(ts, c);
                let body = if ts[p2].tok == TokV::Ident("प्रत्याहार"@) && ts[a].tok is LParen && ts[b].tok is Ident
                    && ts[c].tok is Comma && ts[d].tok is Ident {
                    let (start, marker) = (ts[b].tok->Ident_0, ts[d].tok->Ident_0);
                    match p_expect(ts, next(ts, d), TokV::RParen, "')'"@) {
                        Ok(e) => Ok((
                            ClassV {
                                name,
                                members: pratyahara_members(inv, start, marker),
                                span: Some(PratyaharaV { start, marker }),
                            },
                            e,
                        )),
                        Err(err) => Err(err),
                    }
                } else {
                    match p_bracketed(ts, p2, fl) {
                        Ok((xs, e)) => Ok((ClassV { name, members: xs, span: None }, e)),
                        Err(err) => Err(err),
                    }
                };
                match body {
                    Ok((cls, e)) => match p_expect(ts, e, TokV::Danda, "daṇḍa after गण"@) {
                        Ok(e2) => Ok((DeclV::Class(cls), e2)),
                        Err(err) => Err(err),
                    },
                    Err(err) => Err(err),
                }
            },
            Err(err) => Err(err),
        },
        Err(err) => Err(err),
    }
}

/// One declaration at `p`, the `order`-th rule being next, with the
/// inventory declared so far.
#[verifier::opaque]
pub open spec fn p_decl(ts: Seq<TokenV>, p: int, order: nat, inv: Seq<SivaSutraV>, fl: spec_fn(Seq<char>) -> (u64, Seq<char>)) -> Result<
    (DeclV, int),
    ParseErrorV,
> {
    let q = next(ts, p);
    match ts[p].tok {
        TokV::KwSutra => p_rule(ts, q, order, fl),
        TokV::KwSamjna => p_samjna(ts, q, fl),
        TokV::KwAdhikara => match p_name(ts, q) {
            Ok((_, p1)) => match p_expect(ts, p1, TokV::Danda, "daṇḍa after section name"@) {
                Ok(p2) => Ok((DeclV::Section, p2)),
                Err(err) => Err(err),
            },
            Err(err) => Err(err),
        },
        TokV::KwPrayoga => match p_expr(ts, q, PARSE_DEPTH as nat, fl) {
            Ok((t, p1)) => match p_expect(ts, p1, TokV::Danda, "daṇḍa after प्रयोग"@) {
                Ok(p2) => Ok((DeclV::Prayoga(t), p2)),
                Err(err) => Err(err),
            },
            Err(err) => Err(err),
        },
        TokV::KwImport => match ts[q].tok {
            TokV::Str(path) => match p_expect(ts, next(ts, q), TokV::Danda, "daṇḍa after उपयोग"@) {
                Ok(p2) => Ok((DeclV::Import(path), p2)),
                Err(err) => Err(err),
            },
            _ => Err(error_at(ts, next(ts, q), "उपयोग expects a \"path\", found "@ + describe(ts[q].tok))),
        },
        TokV::KwGana => p_class(ts, q, inv, fl),
        TokV::KwKrama => match p_name(ts, q) {
            Ok((name, p1)) => match p_expect(ts, p1, TokV::LBrace, "'{'"@) {
                Ok(p2) => match p_seq_rules(ts, p2, Seq::empty(), ts.len(), fl) {
                    Ok((rules, p3)) => Ok((DeclV::Krama(SeqSystemV { name, rules }), p3)),
                    Err(err) => Err(err),
                },
                Err(err) => Err(err),
            },
            Err(err) => Err(err),
        },
        TokV::Ident(w) => if is_inventory_word(w) {
            match p_expect(ts, q, TokV::LBrace, "'{'"@) {
                Ok(p1) => match p_sutra_lines(ts, p1, Seq::empty(), ts.len()) {
                    Ok((lines, p2)) => Ok((DeclV::Inventory(lines), p2)),
                    Err(err) => Err(err),
                },
                Err(err) => Err(err),
            }
        } else {
            Err(expected(ts, p, "a declaration"@))
        },
        _ => Err(expected(ts, p, "a declaration"@)),
    }
}

/// Declarations from `p` to the end, added to `prog`.
pub open spec fn p_program(ts: Seq<TokenV>, p: int, prog: ProgramV, f: nat, fl: spec_fn(Seq<char>) -> (u64, Seq<char>)) -> Result<
    ProgramV,
    ParseErrorV,
>
    decreases f,
{
    if f == 0 {
        Err(too_deep(ts, p))
    } else if ts[p].tok is Eof {
        Ok(prog)
    } else {
        match p_decl(ts, p, prog.rules.len(), prog.inventory, fl) {
            Ok((d, p1)) => p_program(ts, p1, add_decl(prog, d), (f - 1) as nat, fl),
            Err(err) => Err(err),
        }
    }
}

/// The empty program.
pub open spec fn empty_program() -> ProgramV {
    ProgramV {
        rules: Seq::empty(),
        samjnas: Seq::empty(),
        prayogas: Seq::empty(),
        imports: Seq::empty(),
        seq: Seq::empty(),
        classes: Seq::empty(),
        inventory: Seq::empty(),
    }
}

/// A whole source file read as a program; its rules numbered in order.
pub open spec fn parse_program_spec(src: Seq<char>, fl: spec_fn(Seq<char>) -> (u64, Seq<char>)) -> Result<
    ProgramV,
    ParseErrorV,
> {
    match crate::lexer::lex_spec(src) {
        Err(e) => Err(from_lex(e)),
        Ok(ts) => p_program(ts, 0, empty_program(), ts.len(), fl),
    }
}

// ---- executable declarations ----
/// A rule's result, viewed through `v`.
pub open spec fn res_view<T, V>(r: Result<(T, usize), ParseError>, v: spec_fn(T) -> V) -> Result<(V, int), ParseErrorV> {
    match r {
        Ok((x, p)) => Ok((v(x), p as int)),
        Err(e) => Err(e@),
    }
}

/// One declaration.
pub enum Decl {
    Rule(Rule),
    Samjna(Samjna),
    Section,
    Prayoga(Term),
    Import(String),
    Class(Class),
    Krama(SeqSystem),
    Inventory(Vec<SivaSutra>),
}

impl View for Decl {
    type V = DeclV;

    open spec fn view(&self) -> DeclV {
        match self {
            Decl::Rule(r) => DeclV::Rule(r@),
            Decl::Samjna(x) => DeclV::Samjna(x@),
            Decl::Section => DeclV::Section,
            Decl::Prayoga(t) => DeclV::Prayoga(t@),
            Decl::Import(path) => DeclV::Import(path@),
            Decl::Class(c) => DeclV::Class(c@),
            Decl::Krama(k) => DeclV::Krama(k@),
            Decl::Inventory(lines) => DeclV::Inventory(crate::sivasutra::inventory_view(lines@)),
        }
    }
}

fn add_decl_exec(prog: &mut Program, d: Decl)
    ensures
        final(prog)@ == add_decl(old(prog)@, d@),
{
    let ghost old_view = prog@;
    match d {
        Decl::Rule(r) => {
            let ghost v = prog.rules@;
            prog.rules.push(r);
            proof {
                assert(crate::ast::rules_view(prog.rules@) =~= crate::ast::rules_view(v).push(r@));
            }
        },
        Decl::Samjna(x) => {
            let ghost v = prog.samjnas@;
            prog.samjnas.push(x);
            proof {
                assert(crate::ast::samjnas_view(prog.samjnas@) =~= crate::ast::samjnas_view(v).push(x@));
            }
        },
        Decl::Section => {},
        Decl::Prayoga(t) => {
            let ghost v = prog.prayogas@;
            prog.prayogas.push(t);
            proof {
                lemma_push_view(v, t);
            }
        },
        Decl::Import(path) => {
            let ghost v = prog.imports@;
            prog.imports.push(path);
            proof {
                assert(names_view(prog.imports@) =~= names_view(v).push(path@));
            }
        },
        Decl::Class(c) => {
            let ghost v = prog.classes@;
            prog.classes.push(c);
            proof {
                assert(crate::krama::classes_view(prog.classes@) =~= crate::krama::classes_view(v).push(c@));
            }
        },
        Decl::Krama(k) => {
            let ghost v = prog.seq@;
            prog.seq.push(k);
            proof {
                assert(crate::krama::systems_view(prog.seq@) =~= crate::krama::systems_view(v).push(k@));
            }
        },
        Decl::Inventory(lines) => {
            let ghost v = prog.inventory@;
            let ghost l = lines@;
            let mut lines = lines;
            prog.inventory.append(&mut lines);
            proof {
                assert(crate::sivasutra::inventory_view(v + l) =~= crate::sivasutra::inventory_view(v)
                    + crate::sivasutra::inventory_view(l));
            }
        },
    }
}

fn e_names(ts: &Vec<Token>, p: usize, acc: Vec<String>, f: u64) -> (r: Result<(Vec<String>, usize), ParseError>)
    requires
        p < ts.len(),
    ensures
        res_view(r, |x: Vec<String>| names_view(x@)) == p_names(tokens_view(ts@), p as int, names_view(acc@), f as nat),
        pos_ok(r, ts.len() as nat),
    decreases f,
{
    if f == 0 {
        return Err(too_deep_at(ts, p));
    }
    let ghost tv = tokens_view(ts@);
    proof {
        assert(tv[p as int] == ts@[p as int]@);
    }
    let name = match &ts[p].tok {
        Tok::Var(v) => v.clone(),
        Tok::Ident(v) => v.clone(),
        _ => {
            return Err(err_expected(ts, p, "a name"));
        },
    };
    let q = next_pos(ts, p);
    proof {
        assert(tv[q as int] == ts@[q as int]@);
    }
    let ghost a0 = acc@;
    let mut acc2 = acc;
    acc2.push(name);
    proof {
        assert(names_view(acc2@) =~= names_view(a0).push(name@));
    }
    if matches!(ts[q].tok, Tok::Comma) {
        let q2 = next_pos(ts, q);
        e_names(ts, q2, acc2, f - 1)
    } else {
        Ok((acc2, q))
    }
}

fn e_alts<F: Fn(String) -> FloatLit>(ts: &Vec<Token>, p: usize, acc: Vec<Term>, f: u64, fl: &F) -> (r: Result<(Vec<Term>, usize), ParseError>)
    requires
        p < ts.len(),
        literal_reader_ok(*fl),
    ensures
        items_result(r) == p_alts(tokens_view(ts@), p as int, terms_view(acc@), f as nat, literal_oracle(*fl)),
        pos_ok(r, ts.len() as nat),
    decreases f,
{
    if f == 0 {
        return Err(too_deep_at(ts, p));
    }
    let ghost tv = tokens_view(ts@);
    match e_expr(ts, p, PARSE_DEPTH, fl) {
        Ok((e, p1)) => {
            proof {
                assert(tv[p1 as int] == ts@[p1 as int]@);
                lemma_push_view(acc@, e);
            }
            let mut acc2 = acc;
            acc2.push(e);
            if matches!(ts[p1].tok, Tok::Bar) {
                let q = next_pos(ts, p1);
                e_alts(ts, q, acc2, f - 1, fl)
            } else {
                Ok((acc2, p1))
            }
        },
        Err(err) => Err(err),
    }
}

fn e_bracketed<F: Fn(String) -> FloatLit>(ts: &Vec<Token>, p: usize, fl: &F) -> (r: Result<(Vec<Term>, usize), ParseError>)
    requires
        p < ts.len(),
        literal_reader_ok(*fl),
    ensures
        items_result(r) == p_bracketed(tokens_view(ts@), p as int, literal_oracle(*fl)),
        pos_ok(r, ts.len() as nat),
{
    let ghost tv = tokens_view(ts@);
    match expect(ts, p, &Tok::LBrack, "'['") {
        Ok(q) => {
            proof {
                assert(tv[q as int] == ts@[q as int]@);
            }
            let items = if matches!(ts[q].tok, Tok::RBrack) {
                let none: Vec<Term> = Vec::new();
                proof {
                    assert(terms_view(none@) =~= Seq::<TermV>::empty());
                }
                Ok((none, q))
            } else {
                let acc: Vec<Term> = Vec::new();
                proof {
                    assert(terms_view(acc@) =~= Seq::<TermV>::empty());
                }
                e_items(ts, q, acc, PARSE_DEPTH, fl)
            };
            match items {
                Ok((xs, p1)) => match expect(ts, p1, &Tok::RBrack, "']'") {
                    Ok(p2) => Ok((xs, p2)),
                    Err(err) => Err(err),
                },
                Err(err) => Err(err),
            }
        },
        Err(err) => Err(err),
    }
}

fn e_elem<F: Fn(String) -> FloatLit>(ts: &Vec<Token>, p: usize, fl: &F) -> (r: Result<(Term, usize), ParseError>)
    requires
        p < ts.len(),
        literal_reader_ok(*fl),
    ensures
        term_result(r) == p_elem(tokens_view(ts@), p as int, literal_oracle(*fl)),
        pos_ok(r, ts.len() as nat),
{
    let ghost tv = tokens_view(ts@);
    let q = next_pos(ts, p);
    let r = next_pos(ts, q);
    let u = next_pos(ts, r);
    let u2 = next_pos(ts, u);
    proof {
        assert(tv[p as int] == ts@[p as int]@);
        assert(tv[q as int] == ts@[q as int]@);
        assert(tv[r as int] == ts@[r as int]@);
        assert(tv[u as int] == ts@[u as int]@);
        assert(tv[u2 as int] == ts@[u2 as int]@);
    }
    if is_op(&ts[p].tok, "^") {
        return Ok((Term::con("@आदि"), q));
    }
    if is_op(&ts[p].tok, "$") {
        return Ok((Term::con("@अन्त"), q));
    }
    if let Tok::Var(v) = &ts[p].tok {
        if is_op(&ts[q].tok, "*") && matches!(ts[r].tok, Tok::Comma | Tok::RBrack) {
            let args = vec![Term::Var(v.clone())];
            proof {
                lemma_terms_view(args@);
                assert(terms_view(args@) =~= seq![TermV::Var(v@)]);
            }
            return Ok((Term::app("@तारा", args), r));
        }
        if matches!(ts[q].tok, Tok::Colon) {
            if let Tok::Ident(c) = &ts[r].tok {
                let ctor = Term::con(canonical(c.as_str()).as_str());
                let ghost cv = ctor@;
                let args = vec![Term::Var(v.clone()), ctor];
                proof {
                    lemma_terms_view(args@);
                    assert(terms_view(args@) =~= seq![TermV::Var(v@), cv]);
                }
                if is_op(&ts[u].tok, "*") && matches!(ts[u2].tok, Tok::Comma | Tok::RBrack) {
                    return Ok((Term::app("@तारा", args), u2));
                }
                return Ok((Term::app("@गण", args), u));
            }
        }
    }
    e_expr(ts, p, PARSE_DEPTH, fl)
}

fn e_elem_list<F: Fn(String) -> FloatLit>(ts: &Vec<Token>, p: usize, fl: &F) -> (r: Result<(Vec<Term>, usize), ParseError>)
    requires
        p < ts.len(),
        literal_reader_ok(*fl),
    ensures
        items_result(r) == p_elem_list(tokens_view(ts@), p as int, literal_oracle(*fl)),
        pos_ok(r, ts.len() as nat),
{
    let ghost tv = tokens_view(ts@);
    match expect(ts, p, &Tok::LBrack, "'['") {
        Ok(q) => {
            proof {
                assert(tv[q as int] == ts@[q as int]@);
            }
            let items = if matches!(ts[q].tok, Tok::RBrack) {
                let none: Vec<Term> = Vec::new();
                proof {
                    assert(terms_view(none@) =~= Seq::<TermV>::empty());
                }
                Ok((none, q))
            } else {
                let acc: Vec<Term> = Vec::new();
                proof {
                    assert(terms_view(acc@) =~= Seq::<TermV>::empty());
                }
                e_elems(ts, q, acc, ts.len() as u64, fl)
            };
            match items {
                Ok((xs, p1)) => match expect(ts, p1, &Tok::RBrack, "']'") {
                    Ok(p2) => Ok((xs, p2)),
                    Err(err) => Err(err),
                },
                Err(err) => Err(err),
            }
        },
        Err(err) => Err(err),
    }
}

fn e_elems<F: Fn(String) -> FloatLit>(ts: &Vec<Token>, p: usize, acc: Vec<Term>, f: u64, fl: &F) -> (r: Result<(Vec<Term>, usize), ParseError>)
    requires
        p < ts.len(),
        literal_reader_ok(*fl),
    ensures
        items_result(r) == p_elems(tokens_view(ts@), p as int, terms_view(acc@), f as nat, literal_oracle(*fl)),
        pos_ok(r, ts.len() as nat),
    decreases f,
{
    if f == 0 {
        return Err(too_deep_at(ts, p));
    }
    let ghost tv = tokens_view(ts@);
    match e_elem(ts, p, fl) {
        Ok((e, p1)) => {
            proof {
                assert(tv[p1 as int] == ts@[p1 as int]@);
                lemma_push_view(acc@, e);
            }
            let mut acc2 = acc;
            acc2.push(e);
            if matches!(ts[p1].tok, Tok::Comma) {
                let q = next_pos(ts, p1);
                e_elems(ts, q, acc2, f - 1, fl)
            } else {
                Ok((acc2, p1))
            }
        },
        Err(err) => Err(err),
    }
}

#[verifier::rlimit(30)]
fn e_seq_rule<F: Fn(String) -> FloatLit>(ts: &Vec<Token>, p: usize, fl: &F) -> (r: Result<(SeqRule, usize), ParseError>)
    requires
        p < ts.len(),
        literal_reader_ok(*fl),
    ensures
        res_view(r, |x: SeqRule| x@) == p_seq_rule(tokens_view(ts@), p as int, literal_oracle(*fl)),
        pos_ok(r, ts.len() as nat),
{
    match e_elem_list(ts, p, fl) {
        Ok((l, p2)) => match expect(ts, p2, &Tok::Arrow, "'->'") {
            Ok(p3) => match e_elem_list(ts, p3, fl) {
                Ok((rhs, p4)) => match expect(ts, p4, &Tok::Danda, "daṇḍa after a क्रम rule") {
                    Ok(p5) => Ok((SeqRule { lhs: l, rhs }, p5)),
                    Err(err) => Err(err),
                },
                Err(err) => Err(err),
            },
            Err(err) => Err(err),
        },
        Err(err) => Err(err),
    }
}

fn e_seq_rules<F: Fn(String) -> FloatLit>(ts: &Vec<Token>, p: usize, acc: Vec<SeqRule>, f: u64, fl: &F) -> (r: Result<(Vec<SeqRule>, usize), ParseError>)
    requires
        p < ts.len(),
        literal_reader_ok(*fl),
    ensures
        res_view(r, |x: Vec<SeqRule>| crate::krama::seq_rules_view(x@)) == p_seq_rules(
            tokens_view(ts@),
            p as int,
            crate::krama::seq_rules_view(acc@),
            f as nat,
            literal_oracle(*fl),
        ),
        pos_ok(r, ts.len() as nat),
    decreases f,
{
    if f == 0 {
        return Err(too_deep_at(ts, p));
    }
    let ghost tv = tokens_view(ts@);
    proof {
        assert(tv[p as int] == ts@[p as int]@);
    }
    if matches!(ts[p].tok, Tok::RBrace) {
        return Ok((acc, next_pos(ts, p)));
    }
    match e_seq_rule(ts, p, fl) {
        Ok((rule, p1)) => {
            let ghost a0 = acc@;
            let mut acc2 = acc;
            acc2.push(rule);
            proof {
                assert(crate::krama::seq_rules_view(acc2@) =~= crate::krama::seq_rules_view(a0).push(rule@));
            }
            e_seq_rules(ts, p1, acc2, f - 1, fl)
        },
        Err(err) => Err(err),
    }
}

fn e_sutra_line(ts: &Vec<Token>, p: usize) -> (r: Result<(SivaSutra, usize), ParseError>)
    requires
        p < ts.len(),
    ensures
        res_view(r, |x: SivaSutra| x@) == p_sutra_line(tokens_view(ts@), p as int),
        pos_ok(r, ts.len() as nat),
{
    let ghost tv = tokens_view(ts@);
    match expect(ts, p, &Tok::LBrack, "'['") {
        Ok(q) => {
            let acc: Vec<String> = Vec::new();
            proof {
                assert(names_view(acc@) =~= Seq::<Seq<char>>::empty());
            }
            match e_names(ts, q, acc, ts.len() as u64) {
                Ok((sounds, p1)) => match expect(ts, p1, &Tok::RBrack, "']'") {
                    Ok(p2) => match expect(ts, p2, &Tok::Arrow, "'->'") {
                        Ok(p3) => {
                            proof {
                                assert(tv[p3 as int] == ts@[p3 as int]@);
                            }
                            match &ts[p3].tok {
                                Tok::Ident(m) => {
                                    let q4 = next_pos(ts, p3);
                                    match expect(ts, q4, &Tok::Danda, "daṇḍa after a śivasūtra") {
                                        Ok(p4) => Ok((SivaSutra { sounds, marker: m.clone() }, p4)),
                                        Err(err) => Err(err),
                                    }
                                },
                                _ => Err(err_expected(ts, p3, "a marker")),
                            }
                        },
                        Err(err) => Err(err),
                    },
                    Err(err) => Err(err),
                },
                Err(err) => Err(err),
            }
        },
        Err(err) => Err(err),
    }
}

fn e_sutra_lines(ts: &Vec<Token>, p: usize, acc: Vec<SivaSutra>, f: u64) -> (r: Result<(Vec<SivaSutra>, usize), ParseError>)
    requires
        p < ts.len(),
    ensures
        res_view(r, |x: Vec<SivaSutra>| crate::sivasutra::inventory_view(x@)) == p_sutra_lines(
            tokens_view(ts@),
            p as int,
            crate::sivasutra::inventory_view(acc@),
            f as nat,
        ),
        pos_ok(r, ts.len() as nat),
    decreases f,
{
    if f == 0 {
        return Err(too_deep_at(ts, p));
    }
    let ghost tv = tokens_view(ts@);
    proof {
        assert(tv[p as int] == ts@[p as int]@);
    }
    if matches!(ts[p].tok, Tok::RBrace) {
        return Ok((acc, next_pos(ts, p)));
    }
    match e_sutra_line(ts, p) {
        Ok((line, p1)) => {
            let ghost a0 = acc@;
            let mut acc2 = acc;
            acc2.push(line);
            proof {
                assert(crate::sivasutra::inventory_view(acc2@) =~= crate::sivasutra::inventory_view(a0).push(line@));
            }
            e_sutra_lines(ts, p1, acc2, f - 1)
        },
        Err(err) => Err(err),
    }
}

fn e_name(ts: &Vec<Token>, p: usize) -> (r: Result<(String, usize), ParseError>)
    requires
        p < ts.len(),
    ensures
        res_view(r, |x: String| x@) == p_name(tokens_view(ts@), p as int),
        pos_ok(r, ts.len() as nat),
{
    let ghost tv = tokens_view(ts@);
    proof {
        assert(tv[p as int] == ts@[p as int]@);
    }
    match &ts[p].tok {
        Tok::Ident(n) => Ok((canonical(n.as_str()), next_pos(ts, p))),
        _ => Err(err_expected(ts, p, "a name")),
    }
}

#[verifier::rlimit(30)]
fn e_rule<F: Fn(String) -> FloatLit>(ts: &Vec<Token>, q: usize, order: usize, fl: &F) -> (r: Result<(Decl, usize), ParseError>)
    requires
        q < ts.len(),
        literal_reader_ok(*fl),
    ensures
        res_view(r, |x: Decl| x@) == p_rule(tokens_view(ts@), q as int, order as nat, literal_oracle(*fl)),
        pos_ok(r, ts.len() as nat),
{
    let ghost tv = tokens_view(ts@);
    match e_expr(ts, q, PARSE_DEPTH, fl) {
        Ok((lhs, p1)) => {
            proof {
                assert(tv[p1 as int] == ts@[p1 as int]@);
            }
            let guard: Result<(Option<Term>, usize), ParseError> = if matches!(ts[p1].tok, Tok::Bar) {
                let q1 = next_pos(ts, p1);
                match e_expr(ts, q1, PARSE_DEPTH, fl) {
                    Ok((g, p2)) => Ok((Some(g), p2)),
                    Err(err) => Err(err),
                }
            } else {
                Ok((None, p1))
            };
            match guard {
                Ok((g, p2)) => match expect(ts, p2, &Tok::Arrow, "'->'") {
                    Ok(p3) => match e_expr(ts, p3, PARSE_DEPTH, fl) {
                        Ok((rhs, p4)) => match expect(ts, p4, &Tok::Danda, "daṇḍa after rule") {
                            Ok(p5) => Ok((Decl::Rule(Rule { lhs, guard: g, rhs, order }), p5)),
                            Err(err) => Err(err),
                        },
                        Err(err) => Err(err),
                    },
                    Err(err) => Err(err),
                },
                Err(err) => Err(err),
            }
        },
        Err(err) => Err(err),
    }
}

#[verifier::rlimit(30)]
fn e_samjna<F: Fn(String) -> FloatLit>(ts: &Vec<Token>, q: usize, fl: &F) -> (r: Result<(Decl, usize), ParseError>)
    requires
        q < ts.len(),
        literal_reader_ok(*fl),
    ensures
        res_view(r, |x: Decl| x@) == p_samjna(tokens_view(ts@), q as int, literal_oracle(*fl)),
        pos_ok(r, ts.len() as nat),
{
    let ghost tv = tokens_view(ts@);
    match e_name(ts, q) {
        Ok((name, p1)) => {
            proof {
                assert(tv[p1 as int] == ts@[p1 as int]@);
            }
            let params: Result<(Vec<String>, usize), ParseError> = if matches!(ts[p1].tok, Tok::LParen) {
                let p2 = next_pos(ts, p1);
                proof {
                    assert(tv[p2 as int] == ts@[p2 as int]@);
                }
                let names = if matches!(ts[p2].tok, Tok::RParen) {
                    let none: Vec<String> = Vec::new();
                    proof {
                        assert(names_view(none@) =~= Seq::<Seq<char>>::empty());
                    }
                    Ok((none, p2))
                } else {
                    let acc: Vec<String> = Vec::new();
                    proof {
                        assert(names_view(acc@) =~= Seq::<Seq<char>>::empty());
                    }
                    e_names(ts, p2, acc, ts.len() as u64)
                };
                match names {
                    Ok((ns, p3)) => match expect(ts, p3, &Tok::RParen, "')'") {
                        Ok(p4) => Ok((ns, p4)),
                        Err(err) => Err(err),
                    },
                    Err(err) => Err(err),
                }
            } else {
                let none: Vec<String> = Vec::new();
                proof {
                    assert(names_view(none@) =~= Seq::<Seq<char>>::empty());
                }
                Ok((none, p1))
            };
            match params {
                Ok((ps, p2)) => match expect(ts, p2, &Tok::Define, "':='") {
                    Ok(p3) => {
                        let acc: Vec<Term> = Vec::new();
                        proof {
                            assert(terms_view(acc@) =~= Seq::<TermV>::empty());
                        }
                        match e_alts(ts, p3, acc, ts.len() as u64, fl) {
                            Ok((alts, p4)) => match expect(ts, p4, &Tok::Danda, "daṇḍa after संज्ञा") {
                                Ok(p5) => Ok((Decl::Samjna(Samjna { name, params: ps, alts }), p5)),
                                Err(err) => Err(err),
                            },
                            Err(err) => Err(err),
                        }
                    },
                    Err(err) => Err(err),
                },
                Err(err) => Err(err),
            }
        },
        Err(err) => Err(err),
    }
}

#[verifier::rlimit(30)]
fn e_class<F: Fn(String) -> FloatLit>(ts: &Vec<Token>, q: usize, inv: &Vec<SivaSutra>, fl: &F) -> (r: Result<(Decl, usize), ParseError>)
    requires
        q < ts.len(),
        literal_reader_ok(*fl),
    ensures
        res_view(r, |x: Decl| x@) == p_class(
            tokens_view(ts@),
            q as int,
            crate::sivasutra::inventory_view(inv@),
            literal_oracle(*fl),
        ),
        pos_ok(r, ts.len() as nat),
{
    let ghost tv = tokens_view(ts@);
    match e_name(ts, q) {
        Ok((name, p1)) => match expect(ts, p1, &Tok::Define, "':='") {
            Ok(p2) => {
                let a = next_pos(ts, p2);
                let b = next_pos(ts, a);
                let c = next_pos(ts, b);
                let d = next_pos(ts, c);
                proof {
                    assert(tv[p2 as int] == ts@[p2 as int]@);
                    assert(tv[a as int] == ts@[a as int]@);
                    assert(tv[b as int] == ts@[b as int]@);
                    assert(tv[c as int] == ts@[c as int]@);
                    assert(tv[d as int] == ts@[d as int]@);
                    reveal_strlit("प्रत्याहार");
                }
                let mut derived: Option<(String, String)> = None;
                if let Tok::Ident(w) = &ts[p2].tok {
                    if str_eq(w.as_str(), "प्रत्याहार") && matches!(ts[a].tok, Tok::LParen) && matches!(ts[c].tok, Tok::Comma) {
                        if let Tok::Ident(start) = &ts[b].tok {
                            if let Tok::Ident(marker) = &ts[d].tok {
                                derived = Some((start.clone(), marker.clone()));
                            }
                        }
                    }
                }
                let ghost is_span = tv[p2 as int].tok == TokV::Ident("प्रत्याहार"@) && tv[a as int].tok is LParen
                    && tv[b as int].tok is Ident && tv[c as int].tok is Comma && tv[d as int].tok is Ident;
                assert(derived is Some <==> is_span);
                let body: Result<(Class, usize), ParseError> = match derived {
                    Some((start, marker)) => {
                        let e0 = next_pos(ts, d);
                        match expect(ts, e0, &Tok::RParen, "')'") {
                            Ok(e) => Ok((Class::from_pratyahara(inv, name, start, marker), e)),
                            Err(err) => Err(err),
                        }
                    },
                    None => match e_bracketed(ts, p2, fl) {
                        Ok((xs, e)) => Ok((Class { name, members: xs, span: None }, e)),
                        Err(err) => Err(err),
                    },
                };
                match body {
                    Ok((cls, e)) => match expect(ts, e, &Tok::Danda, "daṇḍa after गण") {
                        Ok(e2) => Ok((Decl::Class(cls), e2)),
                        Err(err) => Err(err),
                    },
                    Err(err) => Err(err),
                }
            },
            Err(err) => Err(err),
        },
        Err(err) => Err(err),
    }
}

fn is_inventory_name(w: &str) -> (r: bool)
    ensures
        r == is_inventory_word(w@),
{
    str_eq(w, "शिवसूत्र") || str_eq(w, "shivasutra") || str_eq(w, "sivasutra") || str_eq(w, "inventory")
}

#[verifier::rlimit(30)]
fn e_decl<F: Fn(String) -> FloatLit>(ts: &Vec<Token>, p: usize, order: usize, inv: &Vec<SivaSutra>, fl: &F) -> (r: Result<(Decl, usize), ParseError>)
    requires
        p < ts.len(),
        literal_reader_ok(*fl),
    ensures
        res_view(r, |x: Decl| x@) == p_decl(
            tokens_view(ts@),
            p as int,
            order as nat,
            crate::sivasutra::inventory_view(inv@),
            literal_oracle(*fl),
        ),
        pos_ok(r, ts.len() as nat),
{
    let ghost tv = tokens_view(ts@);
    let q = next_pos(ts, p);
    proof {
        assert(tv[p as int] == ts@[p as int]@);
        assert(tv[q as int] == ts@[q as int]@);
        reveal(p_decl);
    }
    match &ts[p].tok {
        Tok::KwSutra => e_rule(ts, q, order, fl),
        Tok::KwSamjna => e_samjna(ts, q, fl),
        Tok::KwAdhikara => match e_name(ts, q) {
            Ok((_, p1)) => match expect(ts, p1, &Tok::Danda, "daṇḍa after section name") {
                Ok(p2) => Ok((Decl::Section, p2)),
                Err(err) => Err(err),
            },
            Err(err) => Err(err),
        },
        Tok::KwPrayoga => match e_expr(ts, q, PARSE_DEPTH, fl) {
            Ok((t, p1)) => match expect(ts, p1, &Tok::Danda, "daṇḍa after प्रयोग") {
                Ok(p2) => Ok((Decl::Prayoga(t), p2)),
                Err(err) => Err(err),
            },
            Err(err) => Err(err),
        },
        Tok::KwImport => match &ts[q].tok {
            Tok::Str(path) => {
                let q1 = next_pos(ts, q);
                match expect(ts, q1, &Tok::Danda, "daṇḍa after उपयोग") {
                    Ok(p2) => Ok((Decl::Import(path.clone()), p2)),
                    Err(err) => Err(err),
                }
            },
            _ => {
                let mut msg = "उपयोग expects a \"path\", found ".to_owned();
                let dsc = describe_tok(&ts[q].tok);
                push_str(&mut msg, dsc.as_str());
                let q1 = next_pos(ts, q);
                proof {
                    reveal_strlit("उपयोग expects a \"path\", found ");
                    assert(msg@ =~= "उपयोग expects a \"path\", found "@ + describe(tv[q as int].tok));
                }
                Err(ParseError { msg, line: ts[q1].line })
            },
        },
        Tok::KwGana => e_class(ts, q, inv, fl),
        Tok::KwKrama => match e_name(ts, q) {
            Ok((name, p1)) => match expect(ts, p1, &Tok::LBrace, "'{'") {
                Ok(p2) => {
                    let acc: Vec<SeqRule> = Vec::new();
                    proof {
                        assert(crate::krama::seq_rules_view(acc@) =~= Seq::<SeqRuleV>::empty());
                    }
                    match e_seq_rules(ts, p2, acc, ts.len() as u64, fl) {
                        Ok((rules, p3)) => Ok((Decl::Krama(SeqSystem { name, rules }), p3)),
                        Err(err) => Err(err),
                    }
                },
                Err(err) => Err(err),
            },
            Err(err) => Err(err),
        },
        Tok::Ident(w) => {
            if is_inventory_name(w.as_str()) {
                match expect(ts, q, &Tok::LBrace, "'{'") {
                    Ok(p1) => {
                        let acc: Vec<SivaSutra> = Vec::new();
                        proof {
                            assert(crate::sivasutra::inventory_view(acc@) =~= Seq::<SivaSutraV>::empty());
                        }
                        match e_sutra_lines(ts, p1, acc, ts.len() as u64) {
                            Ok((lines, p2)) => Ok((Decl::Inventory(lines), p2)),
                            Err(err) => Err(err),
                        }
                    },
                    Err(err) => Err(err),
                }
            } else {
                Err(err_expected(ts, p, "a declaration"))
            }
        },
        _ => Err(err_expected(ts, p, "a declaration")),
    }
}

/// Parse a whole source file into a program; its rules are numbered in
/// declaration order. Floating-point literals are read by `float`.
pub fn parse_program<F: Fn(String) -> FloatLit>(src: &str, float: &F) -> (r: Result<Program, ParseError>)
    requires
        src@.len() < usize::MAX,
        literal_reader_ok(*float),
    ensures
        match r {
            Ok(p) => parse_program_spec(src@, literal_oracle(*float)) == Ok::<ProgramV, ParseErrorV>(p@),
            Err(e) => parse_program_spec(src@, literal_oracle(*float)) == Err::<ProgramV, ParseErrorV>(e@),
        },
{
    let ts = match crate::lexer::lex(src) {
        Ok(ts) => ts,
        Err(e) => {
            return Err(ParseError { msg: e.msg, line: e.line });
        },
    };
    proof {
        crate::lexer::lemma_lexed_stream_shape(src@);
    }
    let ghost tv = tokens_view(ts@);
    let mut prog = Program::default();
    let mut p: usize = 0;
    let mut f: usize = ts.len();
    proof {
        assert(prog@ == empty_program());
    }
    while f > 0 && !matches!(ts[p].tok, Tok::Eof)
        invariant
            p < ts.len(),
            f <= ts.len(),
            tv == tokens_view(ts@),
            crate::lexer::lex_spec(src@) == Ok::<Seq<TokenV>, crate::lexer::LexErrorV>(tv),
            literal_reader_ok(*float),
            p_program(tv, 0, empty_program(), tv.len(), literal_oracle(*float)) == p_program(
                tv,
                p as int,
                prog@,
                f as nat,
                literal_oracle(*float),
            ),
        decreases f,
    {
        proof {
            assert(tv[p as int] == ts@[p as int]@);
        }
        let order = prog.rules.len();
        proof {
            assert(prog@.rules.len() == order);
        }
        let ghost orc = literal_oracle(*float);
        let ghost old_prog = prog@;
        let r = e_decl(&ts, p, order, &prog.inventory, float);
        match r {
            Ok((d, p1)) => {
                proof {
                    let dv = d@;
                    assert(res_view(r, |x: Decl| x@) == Ok::<(DeclV, int), ParseErrorV>((dv, p1 as int)));
                    assert(p_decl(tv, p as int, old_prog.rules.len(), old_prog.inventory, orc) == Ok::<
                        (DeclV, int),
                        ParseErrorV,
                    >((dv, p1 as int)));
                    assert(p_program(tv, p as int, old_prog, f as nat, orc) == p_program(
                        tv,
                        p1 as int,
                        add_decl(old_prog, dv),
                        (f - 1) as nat,
                        orc,
                    ));
                }
                add_decl_exec(&mut prog, d);
                p = p1;
                f = f - 1;
            },
            Err(e) => {
                proof {
                    assert(p_decl(tv, p as int, old_prog.rules.len(), old_prog.inventory, orc) == Err::<
                        (DeclV, int),
                        ParseErrorV,
                    >(e@));
                    assert(!(tv[p as int].tok is Eof));
                    assert(p_program(tv, p as int, old_prog, f as nat, orc) == Err::<ProgramV, ParseErrorV>(e@));
                }
                return Err(e);
            },
        }
    }
    proof {
        assert(tv[p as int] == ts@[p as int]@);
    }
    if f == 0 {
        return Err(too_deep_at(&ts, p));
    }
    proof {
        assert(tv[p as int].tok is Eof);
        assert(p_program(tv, p as int, prog@, f as nat, literal_oracle(*float)) == Ok::<ProgramV, ParseErrorV>(
            prog@,
        ));
    }
    Ok(prog)
}

// ---------------------------------------------------------------------------
// Laws.
/// Each rule's order is its position.
pub open spec fn numbered(rs: Seq<RuleV>) -> bool {
    forall|i: int| 0 <= i < rs.len() ==> (#[trigger] rs[i]).order == i
}

proof fn lemma_decl_rule_order(
    ts: Seq<TokenV>,
    p: int,
    order: nat,
    inv: Seq<SivaSutraV>,
    fl: spec_fn(Seq<char>) -> (u64, Seq<char>),
)
    ensures
        p_decl(ts, p, order, inv, fl) matches Ok((DeclV::Rule(r), _)) ==> r.order == order,
{
    reveal(p_decl);
}

proof fn lemma_program_numbered(
    ts: Seq<TokenV>,
    p: int,
    prog: ProgramV,
    f: nat,
    fl: spec_fn(Seq<char>) -> (u64, Seq<char>),
)
    requires
        numbered(prog.rules),
    ensures
        p_program(ts, p, prog, f, fl) matches Ok(q) ==> numbered(q.rules),
    decreases f,
{
    if f > 0 && !(ts[p].tok is Eof) {
        lemma_decl_rule_order(ts, p, prog.rules.len(), prog.inventory, fl);
        if let Ok((d, p1)) = p_decl(ts, p, prog.rules.len(), prog.inventory, fl) {
            let np = add_decl(prog, d);
            assert(numbered(np.rules)) by {
                if let DeclV::Rule(r) = d {
                    assert forall|i: int| 0 <= i < np.rules.len() implies (#[trigger] np.rules[i]).order == i by {
                        if i < prog.rules.len() {
                            assert(np.rules[i] == prog.rules[i]);
                        }
                    }
                }
            }
            lemma_program_numbered(ts, p1, np, (f - 1) as nat, fl);
        }
    }
}

/// A parsed program numbers its rules in declaration order, so that a later
/// rule is preferred (paratva) also after programs are joined.
pub proof fn lemma_parsed_rules_numbered(src: Seq<char>, fl: spec_fn(Seq<char>) -> (u64, Seq<char>))
    ensures
        parse_program_spec(src, fl) matches Ok(prog) ==> forall|i: int|
            0 <= i < prog.rules.len() ==> (#[trigger] prog.rules[i]).order == i,
{
    if let Ok(ts) = crate::lexer::lex_spec(src) {
        lemma_program_numbered(ts, 0, empty_program(), ts.len(), fl);
    }
}

/// The precedence of an infix operator.
pub open spec fn prec_of(op: Seq<char>) -> int {
    match binding_power_spec(op) {
        Some((p, _)) => p as int,
        None => -1,
    }
}

/// The operators bind in the documented order, loosest first: `|>`; `>>`
/// and `>>=`; `||`; `&&`; the comparisons; `::`; `++`; `+` and `-`; `*`, `/`
/// and `%`. Operators of one level bind alike, `::` and `++` group to the
/// right and all others to the left, so `a + b / c` is `a + (b / c)` and
/// `a - b - c` is `(a - b) - c`.
pub proof fn lemma_operator_precedence()
    ensures
        prec_of("|>"@) > 0,
        prec_of("|>"@) < prec_of(">>"@),
        prec_of(">>"@) == prec_of(">>="@),
        prec_of(">>"@) < prec_of("||"@),
        prec_of("||"@) < prec_of("&&"@),
        prec_of("&&"@) < prec_of("=="@),
        prec_of("=="@) == prec_of("!="@),
        prec_of("=="@) == prec_of("<"@),
        prec_of("=="@) == prec_of("<="@),
        prec_of("=="@) == prec_of(">"@),
        prec_of("=="@) == prec_of(">="@),
        prec_of("=="@) < prec_of("::"@),
        prec_of("::"@) < prec_of("++"@),
        prec_of("++"@) < prec_of("+"@),
        prec_of("+"@) == prec_of("-"@),
        prec_of("+"@) < prec_of("*"@),
        prec_of("*"@) == prec_of("/"@),
        prec_of("*"@) == prec_of("%"@),
        binding_power_spec("::"@) == Some((6u8, true)),
        binding_power_spec("++"@) == Some((7u8, true)),
        forall|op: Seq<char>|
            #![trigger binding_power_spec(op)]
            binding_power_spec(op) matches Some((_, right)) && right ==> op == "::"@ || op == "++"@,
{
    reveal_strlit("|>");
    reveal_strlit(">>");
    reveal_strlit(">>=");
    reveal_strlit("||");
    reveal_strlit("&&");
    reveal_strlit("==");
    reveal_strlit("!=");
    reveal_strlit("<");
    reveal_strlit("<=");
    reveal_strlit(">");
    reveal_strlit(">=");
    reveal_strlit("::");
    reveal_strlit("++");
    reveal_strlit("+");
    reveal_strlit("-");
    reveal_strlit("*");
    reveal_strlit("/");
    reveal_strlit("%");
    assert(">>"@[0] != "|>"@[0]);
    assert(">>="@.len() != "|>"@.len());
    assert(">>="@.len() != ">>"@.len());
    assert("||"@[1] != "|>"@[1]);
    assert("||"@[0] != ">>"@[0]);
    assert("||"@.len() != ">>="@.len());
    assert("&&"@[0] != "|>"@[0]);
    assert("&&"@[0] != ">>"@[0]);
    assert("&&"@.len() != ">>="@.len());
    assert("&&"@[0] != "||"@[0]);
    assert("=="@[0] != "|>"@[0]);
    assert("=="@[0] != ">>"@[0]);
    assert("=="@.len() != ">>="@.len());
    assert("=="@[0] != "||"@[0]);
    assert("=="@[0] != "&&"@[0]);
    assert("!="@[0] != "|>"@[0]);
    assert("!="@[0] != ">>"@[0]);
    assert("!="@.len() != ">>="@.len());
    assert("!="@[0] != "||"@[0]);
    assert("!="@[0] != "&&"@[0]);
    assert("!="@[0] != "=="@[0]);
    assert("<"@.len() != "|>"@.len());
    assert("<"@.len() != ">>"@.len());
    assert("<"@.len() != ">>="@.len());
    assert("<"@.len() != "||"@.len());
    assert("<"@.len() != "&&"@.len());
    assert("<"@.len() != "=="@.len());
    assert("<"@.len() != "!="@.len());
    assert("<="@[0] != "|>"@[0]);
    assert("<="@[0] != ">>"@[0]);
    assert("<="@.len() != ">>="@.len());
    assert("<="@[0] != "||"@[0]);
    assert("<="@[0] != "&&"@[0]);
    assert("<="@[0] != "=="@[0]);
    assert("<="@[0] != "!="@[0]);
    assert("<="@.len() != "<"@.len());
    assert(">"@.len() != "|>"@.len());
    assert(">"@.len() != ">>"@.len());
    assert(">"@.len() != ">>="@.len());
    assert(">"@.len() != "||"@.len());
    assert(">"@.len() != "&&"@.len());
    assert(">"@.len() != "=="@.len());
    assert(">"@.len() != "!="@.len());
    assert(">"@[0] != "<"@[0]);
    assert(">"@.len() != "<="@.len());
    assert(">="@[0] != "|>"@[0]);
    assert(">="@[1] != ">>"@[1]);
    assert(">="@.len() != ">>="@.len());
    assert(">="@[0] != "||"@[0]);
    assert(">="@[0] != "&&"@[0]);
    assert(">="@[0] != "=="@[0]);
    assert(">="@[0] != "!="@[0]);
    assert(">="@.len() != "<"@.len());
    assert(">="@[0] != "<="@[0]);
    assert(">="@.len() != ">"@.len());
    assert("::"@[0] != "|>"@[0]);
    assert("::"@[0] != ">>"@[0]);
    assert("::"@.len() != ">>="@.len());
    assert("::"@[0] != "||"@[0]);
    assert("::"@[0] != "&&"@[0]);
    assert("::"@[0] != "=="@[0]);
    assert("::"@[0] != "!="@[0]);
    assert("::"@.len() != "<"@.len());
    assert("::"@[0] != "<="@[0]);
    assert("::"@.len() != ">"@.len());
    assert("::"@[0] != ">="@[0]);
    assert("++"@[0] != "|>"@[0]);
    assert("++"@[0] != ">>"@[0]);
    assert("++"@.len() != ">>="@.len());
    assert("++"@[0] != "||"@[0]);
    assert("++"@[0] != "&&"@[0]);
    assert("++"@[0] != "=="@[0]);
    assert("++"@[0] != "!="@[0]);
    assert("++"@.len() != "<"@.len());
    assert("++"@[0] != "<="@[0]);
    assert("++"@.len() != ">"@.len());
    assert("++"@[0] != ">="@[0]);
    assert("++"@[0] != "::"@[0]);
    assert("+"@.len() != "|>"@.len());
    assert("+"@.len() != ">>"@.len());
    assert("+"@.len() != ">>="@.len());
    assert("+"@.len() != "||"@.len());
    assert("+"@.len() != "&&"@.len());
    assert("+"@.len() != "=="@.len());
    assert("+"@.len() != "!="@.len());
    assert("+"@[0] != "<"@[0]);
    assert("+"@.len() != "<="@.len());
    assert("+"@[0] != ">"@[0]);
    assert("+"@.len() != ">="@.len());
    assert("+"@.len() != "::"@.len());
    assert("+"@.len() != "++"@.len());
    assert("-"@.len() != "|>"@.len());
    assert("-"@.len() != ">>"@.len());
    assert("-"@.len() != ">>="@.len());
    assert("-"@.len() != "||"@.len());
    assert("-"@.len() != "&&"@.len());
    assert("-"@.len() != "=="@.len());
    assert("-"@.len() != "!="@.len());
    assert("-"@[0] != "<"@[0]);
    assert("-"@.len() != "<="@.len());
    assert("-"@[0] != ">"@[0]);
    assert("-"@.len() != ">="@.len());
    assert("-"@.len() != "::"@.len());
    assert("-"@.len() != "++"@.len());
    assert("-"@[0] != "+"@[0]);
    assert("*"@.len() != "|>"@.len());
    assert("*"@.len() != ">>"@.len());
    assert("*"@.len() != ">>="@.len());
    assert("*"@.len() != "||"@.len());
    assert("*"@.len() != "&&"@.len());
    assert("*"@.len() != "=="@.len());
    assert("*"@.len() != "!="@.len());
    assert("*"@[0] != "<"@[0]);
    assert("*"@.len() != "<="@.len());
    assert("*"@[0] != ">"@[0]);
    assert("*"@.len() != ">="@.len());
    assert("*"@.len() != "::"@.len());
    assert("*"@.len() != "++"@.len());
    assert("*"@[0] != "+"@[0]);
    assert("*"@[0] != "-"@[0]);
    assert("/"@.len() != "|>"@.len());
    assert("/"@.len() != ">>"@.len());
    assert("/"@.len() != ">>="@.len());
    assert("/"@.len() != "||"@.len());
    assert("/"@.len() != "&&"@.len());
    assert("/"@.len() != "=="@.len());
    assert("/"@.len() != "!="@.len());
    assert("/"@[0] != "<"@[0]);
    assert("/"@.len() != "<="@.len());
    assert("/"@[0] != ">"@[0]);
    assert("/"@.len() != ">="@.len());
    assert("/"@.len() != "::"@.len());
    assert("/"@.len() != "++"@.len());
    assert("/"@[0] != "+"@[0]);
    assert("/"@[0] != "-"@[0]);
    assert("/"@[0] != "*"@[0]);
    assert("%"@.len() != "|>"@.len());
    assert("%"@.len() != ">>"@.len());
    assert("%"@.len() != ">>="@.len());
    assert("%"@.len() != "||"@.len());
    assert("%"@.len() != "&&"@.len());
    assert("%"@.len() != "=="@.len());
    assert("%"@.len() != "!="@.len());
    assert("%"@[0] != "<"@[0]);
    assert("%"@.len() != "<="@.len());
    assert("%"@[0] != ">"@[0]);
    assert("%"@.len() != ">="@.len());
    assert("%"@.len() != "::"@.len());
    assert("%"@.len() != "++"@.len());
    assert("%"@[0] != "+"@[0]);
    assert("%"@[0] != "-"@[0]);
    assert("%"@[0] != "*"@[0]);
    assert("%"@[0] != "/"@[0]);
}

/// Three integers joined by two infix operators, as tokens.
pub open spec fn three_operands(x: int, o1: Seq<char>, y: int, o2: Seq<char>, z: int) -> Seq<TokenV> {
    seq![
        TokenV { tok: TokV::Int(x), line: 1, raw: None },
        TokenV { tok: TokV::Op(o1), line: 1, raw: None },
        TokenV { tok: TokV::Int(y), line: 1, raw: None },
        TokenV { tok: TokV::Op(o2), line: 1, raw: None },
        TokenV { tok: TokV::Int(z), line: 1, raw: None },
        TokenV { tok: TokV::Eof, line: 1, raw: None },
    ]
}

proof fn lemma_operand(ts: Seq<TokenV>, k: int, n: int, f: nat, fl: spec_fn(Seq<char>) -> (u64, Seq<char>))
    requires
        0 <= k,
        k + 1 < ts.len(),
        ts[k].tok == TokV::Int(n),
        !(ts[k + 1].tok is LParen),
        !(ts[k + 1].tok is Dot),
        f >= 2,
    ensures
        p_unary(ts, k, f, fl) == Ok::<(TermV, int), ParseErrorV>((TermV::Int(n), k + 1)),
{
    reveal_strlit("-");
    reveal_strlit("!");
    assert(p_primary(ts, k, (f - 1) as nat, fl) == Ok::<(TermV, int), ParseErrorV>((TermV::Int(n), k + 1)));
    assert(p_postfix(ts, k + 1, TermV::Int(n), (f - 1) as nat, fl) == Ok::<(TermV, int), ParseErrorV>(
        (TermV::Int(n), k + 1),
    ));
}

proof fn lemma_infix_at_end(ts: Seq<TokenV>, k: int, min: u8, lhs: TermV, f: nat, fl: spec_fn(Seq<char>) -> (u64, Seq<char>))
    requires
        0 <= k < ts.len(),
        ts[k].tok is Eof,
        f >= 1,
    ensures
        p_infix(ts, k, min, lhs, f, fl) == Ok::<(TermV, int), ParseErrorV>((lhs, k)),
{
}

/// How `x o1 y o2 z` groups: the second operator takes `y` when it binds
/// tighter than the first, or as tightly with the first grouping to the
/// right; otherwise the first operator takes `x` and `y`. So `1 + 6 / 2`
/// is `1 + (6 / 2)`, `10 - 3 - 2` is `(10 - 3) - 2` and `a :: b :: c` is
/// `a :: (b :: c)`.
pub proof fn lemma_infix_grouping(
    x: int,
    o1: Seq<char>,
    y: int,
    o2: Seq<char>,
    z: int,
    f: nat,
    fl: spec_fn(Seq<char>) -> (u64, Seq<char>),
)
    requires
        binding_power_spec(o1) is Some,
        binding_power_spec(o2) is Some,
        f >= 20,
    ensures
        p_expr(three_operands(x, o1, y, o2, z), 0, f, fl) == Ok::<(TermV, int), ParseErrorV>((
            if prec_of(o2) > prec_of(o1) || (prec_of(o2) == prec_of(o1) && binding_power_spec(o1)->Some_0.1) {
                binop_spec(o1, TermV::Int(x), binop_spec(o2, TermV::Int(y), TermV::Int(z)))
            } else {
                binop_spec(o2, binop_spec(o1, TermV::Int(x), TermV::Int(y)), TermV::Int(z))
            },
            5,
        )),
{
    let ts = three_operands(x, o1, y, o2, z);
    let (p1, r1) = binding_power_spec(o1)->Some_0;
    let (p2, r2) = binding_power_spec(o2)->Some_0;
    let (ix, iy, iz) = (TermV::Int(x), TermV::Int(y), TermV::Int(z));
    let nm: u8 = if r1 {
        p1
    } else {
        (p1 + 1) as u8
    };
    let nm2: u8 = if r2 {
        p2
    } else {
        (p2 + 1) as u8
    };
    assert(ts[5].tok is Eof);
    lemma_operand(ts, 0, x, (f - 2) as nat, fl);
    lemma_operand(ts, 2, y, (f - 4) as nat, fl);
    if p2 < nm {
        lemma_infix_at_end(ts, 5, nm, iy, (f - 4) as nat, fl);
        assert(p_infix(ts, 3, nm, iy, (f - 4) as nat, fl) == Ok::<(TermV, int), ParseErrorV>((iy, 3)));
        assert(p_expr_bp(ts, 2, nm, (f - 3) as nat, fl) == Ok::<(TermV, int), ParseErrorV>((iy, 3)));
        let l = binop_spec(o1, ix, iy);
        lemma_operand(ts, 4, z, (f - 5) as nat, fl);
        lemma_infix_at_end(ts, 5, nm2, iz, (f - 5) as nat, fl);
        assert(p_expr_bp(ts, 4, nm2, (f - 4) as nat, fl) == Ok::<(TermV, int), ParseErrorV>((iz, 5)));
        lemma_infix_at_end(ts, 5, 0, binop_spec(o2, l, iz), (f - 4) as nat, fl);
        assert(p_infix(ts, 3, 0, l, (f - 3) as nat, fl) == Ok::<(TermV, int), ParseErrorV>(
            (binop_spec(o2, l, iz), 5),
        ));
        assert(p_infix(ts, 1, 0, ix, (f - 2) as nat, fl) == Ok::<(TermV, int), ParseErrorV>(
            (binop_spec(o2, l, iz), 5),
        ));
    } else {
        lemma_operand(ts, 4, z, (f - 6) as nat, fl);
        lemma_infix_at_end(ts, 5, nm2, iz, (f - 6) as nat, fl);
        assert(p_expr_bp(ts, 4, nm2, (f - 5) as nat, fl) == Ok::<(TermV, int), ParseErrorV>((iz, 5)));
        let r = binop_spec(o2, iy, iz);
        lemma_infix_at_end(ts, 5, nm, r, (f - 5) as nat, fl);
        assert(p_infix(ts, 3, nm, iy, (f - 4) as nat, fl) == Ok::<(TermV, int), ParseErrorV>((r, 5)));
        assert(p_expr_bp(ts, 2, nm, (f - 3) as nat, fl) == Ok::<(TermV, int), ParseErrorV>((r, 5)));
        let whole = binop_spec(o1, ix, r);
        lemma_infix_at_end(ts, 5, 0, whole, (f - 3) as nat, fl);
        assert(p_infix(ts, 1, 0, ix, (f - 2) as nat, fl) == Ok::<(TermV, int), ParseErrorV>((whole, 5)));
    }
    assert(p_expr_bp(ts, 0, 0, (f - 1) as nat, fl) == p_infix(ts, 1, 0, ix, (f - 2) as nat, fl));
}

} // verus!
