//! The formatter: printing tokens back as source text. A keyword or a
//! punctuation mark keeps the spelling it was written with, a number is
//! written in ASCII digits, a string literal is re-escaped.
use crate::bigint::BigInt;
use crate::decimal::int_to_decimal;
use crate::lexer::{
    lex, lex_error_text, lex_full, lex_full_spec, lex_spec, tokens_view, Tok, TokV, Token, TokenV,
};
use crate::pretty::{has_point_or_exponent, has_point_or_exponent_exec};
use crate::text::{chars_of, push_char, push_str, str_eq};
use vstd::prelude::*;

verus! {

/// How a character is written inside a string literal.
pub open spec fn escape_char(c: char) -> Seq<char> {
    if c == '\\' {
        seq!['\\', '\\']
    } else if c == '"' {
        seq!['\\', '"']
    } else if c == '\n' {
        seq!['\\', 'n']
    } else if c == '\t' {
        seq!['\\', 't']
    } else {
        seq![c]
    }
}

/// The contents of a string literal, escaped.
pub open spec fn escaped(s: Seq<char>) -> Seq<char>
    decreases s.len(),
{
    if s.len() == 0 {
        Seq::empty()
    } else {
        escaped(s.drop_last()) + escape_char(s.last())
    }
}

/// The spelling of a token kind with no recorded spelling.
pub open spec fn tok_text_spec(t: TokV) -> Seq<char> {
    match t {
        TokV::Ident(s) => s,
        TokV::Var(v) => seq!['?'] + v,
        TokV::Str(s) => seq!['"'] + escaped(s) + seq!['"'],
        TokV::Int(n) => int_to_decimal(n),
        TokV::Big(n) => int_to_decimal(n),
        TokV::Float(s) => if has_point_or_exponent(s) {
            s
        } else {
            s + seq!['.', '0']
        },
        TokV::Op(o) => o,
        TokV::LParen => "("@,
        TokV::RParen => ")"@,
        TokV::LBrack => "["@,
        TokV::RBrack => "]"@,
        TokV::LBrace => "{"@,
        TokV::RBrace => "}"@,
        TokV::Comma => ","@,
        TokV::Dot => "."@,
        TokV::Colon => ":"@,
        TokV::Bar => "|"@,
        TokV::Eq => "="@,
        TokV::Danda => "।"@,
        TokV::Arrow => "->"@,
        TokV::FatArrow => "=>"@,
        TokV::LArrow => "<-"@,
        TokV::Define => ":="@,
        TokV::KwSutra => "सूत्र"@,
        TokV::KwSamjna => "संज्ञा"@,
        TokV::KwAdhikara => "अधिकार"@,
        TokV::KwPrayoga => "प्रयोग"@,
        TokV::KwImport => "उपयोग"@,
        TokV::KwKrama => "क्रम"@,
        TokV::KwGana => "गण"@,
        TokV::KwLet => "अस्तु"@,
        TokV::KwIn => "अतः"@,
        TokV::KwIf => "चेत्"@,
        TokV::KwThen => "तर्हि"@,
        TokV::KwElse => "अन्यथा"@,
        TokV::KwDo => "क्रिया"@,
        TokV::Comment(t) => seq!['#'] + t,
        TokV::Eof => Seq::empty(),
    }
}

/// How a token is printed: its recorded spelling, or else its kind's.
pub open spec fn token_text_spec(t: TokenV) -> Seq<char> {
    match t.raw {
        Some(r) => r,
        None => tok_text_spec(t.tok),
    }
}

/// A string literal with its contents escaped.
fn quoted(s: &String) -> (r: String)
    ensures
        r@ == seq!['"'] + escaped(s@) + seq!['"'],
{
    let cs = chars_of(s.as_str());
    let mut out = String::new();
    push_char(&mut out, '"');
    let mut i: usize = 0;
    proof {
        assert(cs@.take(0) =~= Seq::<char>::empty());
        assert(out@ =~= seq!['"'] + escaped(cs@.take(0)));
    }
    while i < cs.len()
        invariant
            i <= cs.len(),
            cs@ == s@,
            out@ == seq!['"'] + escaped(cs@.take(i as int)),
        decreases cs.len() - i,
    {
        let c = cs[i];
        let ghost before = out@;
        if c == '\\' {
            push_char(&mut out, '\\');
            push_char(&mut out, '\\');
        } else if c == '"' {
            push_char(&mut out, '\\');
            push_char(&mut out, '"');
        } else if c == '\n' {
            push_char(&mut out, '\\');
            push_char(&mut out, 'n');
        } else if c == '\t' {
            push_char(&mut out, '\\');
            push_char(&mut out, 't');
        } else {
            push_char(&mut out, c);
        }
        proof {
            assert(cs@.take(i + 1).drop_last() =~= cs@.take(i as int));
            assert(cs@.take(i + 1).last() == c);
            assert(out@ =~= before + escape_char(c));
            assert(seq!['"'] + escaped(cs@.take(i + 1)) =~= (seq!['"'] + escaped(cs@.take(i as int)))
                + escape_char(c));
        }
        i = i + 1;
    }
    push_char(&mut out, '"');
    proof {
        assert(cs@.take(cs.len() as int) =~= cs@);
    }
    out
}

/// The spelling of a token kind.
pub(crate) fn tok_text(t: &Tok) -> (r: String)
    ensures
        r@ == tok_text_spec(t@),
{
    match t {
        Tok::Ident(s) => s.clone(),
        Tok::Var(v) => {
            let mut out = String::new();
            push_char(&mut out, '?');
            push_str(&mut out, v.as_str());
            proof {
                assert(out@ =~= seq!['?'] + v@);
            }
            out
        },
        Tok::Str(s) => quoted(s),
        Tok::Int(n) => BigInt::from_i64(*n).to_decimal_string(),
        Tok::Big(b) => b.to_decimal_string(),
        Tok::Float(s) => {
            if has_point_or_exponent_exec(s.as_str()) {
                s.clone()
            } else {
                let mut out = s.clone();
                push_char(&mut out, '.');
                push_char(&mut out, '0');
                proof {
                    assert(out@ =~= s@ + seq!['.', '0']);
                }
                out
            }
        },
        Tok::Op(o) => o.clone(),
        Tok::LParen => "(".to_owned(),
        Tok::RParen => ")".to_owned(),
        Tok::LBrack => "[".to_owned(),
        Tok::RBrack => "]".to_owned(),
        Tok::LBrace => "{".to_owned(),
        Tok::RBrace => "}".to_owned(),
        Tok::Comma => ",".to_owned(),
        Tok::Dot => ".".to_owned(),
        Tok::Colon => ":".to_owned(),
        Tok::Bar => "|".to_owned(),
        Tok::Eq => "=".to_owned(),
        Tok::Danda => "।".to_owned(),
        Tok::Arrow => "->".to_owned(),
        Tok::FatArrow => "=>".to_owned(),
        Tok::LArrow => "<-".to_owned(),
        Tok::Define => ":=".to_owned(),
        Tok::KwSutra => "सूत्र".to_owned(),
        Tok::KwSamjna => "संज्ञा".to_owned(),
        Tok::KwAdhikara => "अधिकार".to_owned(),
        Tok::KwPrayoga => "प्रयोग".to_owned(),
        Tok::KwImport => "उपयोग".to_owned(),
        Tok::KwKrama => "क्रम".to_owned(),
        Tok::KwGana => "गण".to_owned(),
        Tok::KwLet => "अस्तु".to_owned(),
        Tok::KwIn => "अतः".to_owned(),
        Tok::KwIf => "चेत्".to_owned(),
        Tok::KwThen => "तर्हि".to_owned(),
        Tok::KwElse => "अन्यथा".to_owned(),
        Tok::KwDo => "क्रिया".to_owned(),
        Tok::Comment(text) => {
            let mut out = String::new();
            push_char(&mut out, '#');
            push_str(&mut out, text.as_str());
            proof {
                assert(out@ =~= seq!['#'] + text@);
            }
            out
        },
        Tok::Eof => String::new(),
    }
}

/// The source text of a token.
pub fn token_text(t: &Token) -> (r: String)
    ensures
        r@ == token_text_spec(t@),
{
    match &t.raw {
        Some(r) => r.clone(),
        None => tok_text(&t.tok),
    }
}

// ---------------------------------------------------------------------------
// Layout.
/// The tokens without `Eof`.
pub open spec fn drop_eof(ts: Seq<TokenV>) -> Seq<TokenV>
    decreases ts.len(),
{
    if ts.len() == 0 {
        Seq::empty()
    } else if ts.last().tok is Eof {
        drop_eof(ts.drop_last())
    } else {
        drop_eof(ts.drop_last()).push(ts.last())
    }
}

/// A keyword that begins a declaration.
pub open spec fn is_decl_keyword(t: TokV) -> bool {
    t is KwSutra || t is KwSamjna || t is KwAdhikara || t is KwPrayoga || t is KwImport || t is KwKrama
        || t is KwGana
}

/// Any keyword.
pub open spec fn is_keyword(t: TokV) -> bool {
    is_decl_keyword(t) || t is KwLet || t is KwIn || t is KwIf || t is KwThen || t is KwElse || t is KwDo
}

/// A closing bracket of any kind.
pub open spec fn is_closer(t: TokV) -> bool {
    t is RParen || t is RBrack || t is RBrace
}

/// After this token a `-` or `!` is a prefix operator.
pub open spec fn prefix_position_after(t: TokV) -> bool {
    t is Op || t is Arrow || t is FatArrow || t is LArrow || t is Define || t is Eq || t is Bar || t is Comma
        || t is Colon || t is LParen || t is LBrack || t is LBrace || t is Danda || is_keyword(t)
}

/// Whether a `-` or `!` at `i` would be a prefix operator: the last token
/// before it that is not a comment allows one, or there is none.
pub open spec fn prefix_position(ts: Seq<TokenV>, i: int) -> bool
    decreases i,
{
    if i <= 0 || i > ts.len() {
        true
    } else if ts[i - 1].tok is Comment {
        prefix_position(ts, i - 1)
    } else {
        prefix_position_after(ts[i - 1].tok)
    }
}

/// The token at `i` is a unary `-` or `!`, which hugs its operand.
pub open spec fn is_unary(ts: Seq<TokenV>, i: int) -> bool {
    &&& 0 <= i < ts.len()
    &&& (ts[i].tok == TokV::Op("-"@) || ts[i].tok == TokV::Op("!"@))
    &&& prefix_position(ts, i)
}

/// The `{` at `i` opens a block (after `do`, or a `क्रम NAME` header)
/// rather than a map literal.
pub open spec fn is_block_brace(ts: Seq<TokenV>, i: int) -> bool {
    if i <= 0 || i >= ts.len() + 1 {
        false
    } else if ts[i - 1].tok is KwDo {
        true
    } else if ts[i - 1].tok is Ident {
        i >= 2 && ts[i - 2].tok is KwKrama
    } else {
        false
    }
}

/// The last flag, or `false` where there is none.
pub open spec fn last_or_false(s: Seq<bool>) -> bool {
    if s.len() > 0 {
        s.last()
    } else {
        false
    }
}

/// Whether a space goes between `prev` and `cur` on one line. `var_colon`
/// says that `prev` is a `:` right after a variable on the same line.
pub open spec fn needs_space(prev: TokV, var_colon: bool, cur: TokV, prev_unary: bool, blocks: Seq<bool>) -> bool {
    if cur is Comma || cur is Danda || cur is RParen || cur is RBrack || cur is Colon || cur is Dot {
        false
    } else if cur is RBrace {
        last_or_false(blocks)
    } else if prev is LParen || prev is LBrack || prev is Dot {
        false
    } else if prev is LBrace {
        last_or_false(blocks)
    } else if prev is Colon {
        !var_colon
    } else if cur is LParen && (prev is Ident || prev is Var || prev is RParen || prev is RBrack) {
        false
    } else {
        !prev_unary
    }
}

/// The layout state: bracket depth, for each open brace whether it opens a
/// block, the open brackets (`true` for a brace), whether a declaration
/// begun on an earlier line is still open, and the last line printed
/// (0 before anything).
pub struct LayoutV {
    pub depth: nat,
    pub blocks: Seq<bool>,
    pub stack: Seq<bool>,
    pub in_decl: bool,
    pub prev_line: nat,
}

/// One less, but not below zero.
pub open spec fn sat_dec(n: nat) -> nat {
    if n > 0 {
        (n - 1) as nat
    } else {
        0
    }
}

/// Without its last element, if it has one.
pub open spec fn pop_flag(s: Seq<bool>) -> Seq<bool> {
    if s.len() > 0 {
        s.drop_last()
    } else {
        s
    }
}

/// Two spaces per level.
pub open spec fn indent_text(n: nat) -> Seq<char>
    decreases n,
{
    if n == 0 {
        Seq::empty()
    } else {
        indent_text((n - 1) as nat) + seq![' ', ' ']
    }
}

/// The token at `i` is the first of its source line.
pub open spec fn starts_line(ts: Seq<TokenV>, i: int) -> bool {
    i == 0 || ts[i].line != ts[i - 1].line
}

/// A declaration keyword at top level.
pub open spec fn starts_decl(ts: Seq<TokenV>, i: int, st: LayoutV) -> bool {
    st.depth == 0 && is_decl_keyword(ts[i].tok)
}

/// The line break (keeping at most one blank line) and the indentation
/// before a token that begins a line.
pub open spec fn line_head(t: TokenV, st: LayoutV) -> Seq<char> {
    let breaks = if st.prev_line == 0 {
        Seq::empty()
    } else if t.line > st.prev_line + 1 {
        seq!['\n', '\n']
    } else {
        seq!['\n']
    };
    let begins = st.depth == 0 && is_decl_keyword(t.tok);
    let base = if is_closer(t.tok) {
        sat_dec(st.depth)
    } else {
        st.depth
    };
    let level = if st.in_decl && !begins && !st.stack.contains(true) {
        base + 1
    } else {
        base
    };
    breaks + indent_text(level)
}

/// What goes before the token at `i`: at the start of a line, its line
/// head; else the spacing between tokens (two spaces before a trailing
/// comment).
pub open spec fn lead_text(ts: Seq<TokenV>, i: int, st: LayoutV) -> Seq<char> {
    if starts_line(ts, i) {
        line_head(ts[i], st)
    } else if ts[i].tok is Comment {
        seq![' ', ' ']
    } else if needs_space(
        ts[i - 1].tok,
        i >= 2 && ts[i - 2].line == ts[i].line && ts[i - 2].tok is Var,
        ts[i].tok,
        is_unary(ts, i - 1),
        st.blocks,
    ) {
        seq![' ']
    } else {
        Seq::empty()
    }
}

/// The state once the token at `i` has begun its line.
pub open spec fn after_lead(ts: Seq<TokenV>, i: int, st: LayoutV) -> LayoutV {
    LayoutV {
        in_decl: if starts_line(ts, i) && starts_decl(ts, i, st) {
            true
        } else {
            st.in_decl
        },
        prev_line: ts[i].line,
        ..st
    }
}

/// The state after the token at `i`: brackets opened and closed, and a
/// declaration ended by a closing brace back at top level or a top-level
/// danda.
pub open spec fn track(ts: Seq<TokenV>, i: int, st: LayoutV) -> LayoutV {
    let t = ts[i].tok;
    if t is LParen || t is LBrack {
        LayoutV { depth: st.depth + 1, stack: st.stack.push(false), ..st }
    } else if t is LBrace {
        LayoutV {
            depth: st.depth + 1,
            stack: st.stack.push(true),
            blocks: st.blocks.push(is_block_brace(ts, i)),
            ..st
        }
    } else if t is RParen || t is RBrack {
        LayoutV { depth: sat_dec(st.depth), stack: pop_flag(st.stack), ..st }
    } else if t is RBrace {
        LayoutV {
            depth: sat_dec(st.depth),
            stack: pop_flag(st.stack),
            blocks: pop_flag(st.blocks),
            in_decl: if sat_dec(st.depth) == 0 {
                false
            } else {
                st.in_decl
            },
            ..st
        }
    } else if t is Danda && st.depth == 0 {
        LayoutV { in_decl: false, ..st }
    } else {
        st
    }
}

/// The text of the tokens from `i` on, in state `st`, and the final newline.
pub open spec fn render_from(ts: Seq<TokenV>, i: int, st: LayoutV) -> Seq<char>
    decreases ts.len() - i,
{
    if i < 0 || i >= ts.len() {
        seq!['\n']
    } else {
        lead_text(ts, i, st) + token_text_spec(ts[i]) + render_from(ts, i + 1, track(ts, i, after_lead(ts, i, st)))
    }
}

/// The layout before anything is printed.
pub open spec fn initial_layout() -> LayoutV {
    LayoutV { depth: 0, blocks: Seq::empty(), stack: Seq::empty(), in_decl: false, prev_line: 0 }
}

/// The formatted text of a token stream: source lines kept, at most one
/// blank line in a row, two spaces of indentation per open bracket and one
/// more on the continuation lines of a declaration outside a block, one
/// space between tokens except where they hug, and a final newline.
pub open spec fn render_spec(ts: Seq<TokenV>) -> Seq<char> {
    render_from(drop_eof(ts), 0, initial_layout())
}

// ---- executable layout ----
fn without_eof(toks: &Vec<Token>) -> (r: Vec<&Token>)
    ensures
        r@.map_values(|t: &Token| t@) == drop_eof(tokens_view(toks@)),
{
    let ghost tv = tokens_view(toks@);
    let mut out: Vec<&Token> = Vec::new();
    let mut i: usize = 0;
    proof {
        assert(tv.take(0) =~= Seq::<TokenV>::empty());
        assert(out@.map_values(|t: &Token| t@) =~= Seq::<TokenV>::empty());
    }
    while i < toks.len()
        invariant
            i <= toks.len(),
            tv == tokens_view(toks@),
            out@.map_values(|t: &Token| t@) == drop_eof(tv.take(i as int)),
        decreases toks.len() - i,
    {
        let ghost before = out@;
        proof {
            assert(tv.take(i + 1).drop_last() =~= tv.take(i as int));
            assert(tv.take(i + 1).last() == toks@[i as int]@);
        }
        if !matches!(toks[i].tok, Tok::Eof) {
            out.push(&toks[i]);
            proof {
                assert(out@.map_values(|t: &Token| t@) =~= before.map_values(|t: &Token| t@).push(toks@[i as int]@));
            }
        }
        i = i + 1;
    }
    proof {
        assert(tv.take(i as int) =~= tv);
    }
    out
}

fn decl_keyword(t: &Tok) -> (r: bool)
    ensures
        r == is_decl_keyword(t@),
{
    match t {
        Tok::KwSutra | Tok::KwSamjna | Tok::KwAdhikara | Tok::KwPrayoga | Tok::KwImport | Tok::KwKrama
        | Tok::KwGana => true,
        _ => false,
    }
}

fn keyword(t: &Tok) -> (r: bool)
    ensures
        r == is_keyword(t@),
{
    match t {
        Tok::KwSutra | Tok::KwSamjna | Tok::KwAdhikara | Tok::KwPrayoga | Tok::KwImport | Tok::KwKrama
        | Tok::KwGana | Tok::KwLet | Tok::KwIn | Tok::KwIf | Tok::KwThen | Tok::KwElse | Tok::KwDo => true,
        _ => false,
    }
}

fn prefix_after(t: &Tok) -> (r: bool)
    ensures
        r == prefix_position_after(t@),
{
    match t {
        Tok::Op(_) | Tok::Arrow | Tok::FatArrow | Tok::LArrow | Tok::Define | Tok::Eq | Tok::Bar | Tok::Comma
        | Tok::Colon | Tok::LParen | Tok::LBrack | Tok::LBrace | Tok::Danda => true,
        _ => keyword(t),
    }
}

fn minus_or_bang(t: &Tok) -> (r: bool)
    ensures
        r == (t@ == TokV::Op("-"@) || t@ == TokV::Op("!"@)),
{
    match t {
        Tok::Op(o) => str_eq(o.as_str(), "-") || str_eq(o.as_str(), "!"),
        _ => false,
    }
}

fn last_flag(s: &Vec<bool>) -> (r: bool)
    ensures
        r == last_or_false(s@),
{
    if s.len() > 0 {
        s[s.len() - 1]
    } else {
        false
    }
}

fn any_true(s: &Vec<bool>) -> (r: bool)
    ensures
        r == s@.contains(true),
{
    let mut k: usize = 0;
    while k < s.len()
        invariant
            k <= s.len(),
            forall|j: int| 0 <= j < k ==> !s@[j],
        decreases s.len() - k,
    {
        if s[k] {
            return true;
        }
        k = k + 1;
    }
    false
}

fn space_between(prev: &Tok, var_colon: bool, cur: &Tok, prev_unary: bool, blocks: &Vec<bool>) -> (r: bool)
    ensures
        r == needs_space(prev@, var_colon, cur@, prev_unary, blocks@),
{
    match cur {
        Tok::Comma | Tok::Danda | Tok::RParen | Tok::RBrack | Tok::Colon | Tok::Dot => {
            return false;
        },
        Tok::RBrace => {
            return last_flag(blocks);
        },
        _ => {},
    }
    match prev {
        Tok::LParen | Tok::LBrack | Tok::Dot => {
            return false;
        },
        Tok::LBrace => {
            return last_flag(blocks);
        },
        Tok::Colon => {
            return !var_colon;
        },
        _ => {},
    }
    if matches!(cur, Tok::LParen) && matches!(prev, Tok::Ident(_) | Tok::Var(_) | Tok::RParen | Tok::RBrack) {
        return false;
    }
    !prev_unary
}

fn push_indent(out: &mut String, n: usize)
    ensures
        final(out)@ == old(out)@ + indent_text(n as nat),
{
    let ghost start = out@;
    let mut k: usize = 0;
    while k < n
        invariant
            k <= n,
            out@ == start + indent_text(k as nat),
        decreases n - k,
    {
        push_char(out, ' ');
        push_char(out, ' ');
        proof {
            assert(start + indent_text((k + 1) as nat) =~= start + indent_text(k as nat) + seq![' ', ' ']);
        }
        k = k + 1;
    }
}

/// The views of borrowed tokens.
pub open spec fn refs_view(v: Seq<&Token>) -> Seq<TokenV> {
    v.map_values(|t: &Token| t@)
}

/// The layout state, executable.
struct Layout {
    depth: usize,
    blocks: Vec<bool>,
    stack: Vec<bool>,
    in_decl: bool,
    prev_line: usize,
}

impl View for Layout {
    type V = LayoutV;

    closed spec fn view(&self) -> LayoutV {
        LayoutV {
            depth: self.depth as nat,
            blocks: self.blocks@,
            stack: self.stack@,
            in_decl: self.in_decl,
            prev_line: self.prev_line as nat,
        }
    }
}

/// Print the head of the line that `t` begins, and note a declaration that
/// it begins.
#[verifier::rlimit(30)]
fn begin_line(out: &mut String, t: &Token, lay: &mut Layout)
    requires
        old(lay).depth < usize::MAX,
    ensures
        final(out)@ == old(out)@ + line_head(t@, old(lay)@),
        final(lay)@ == (LayoutV {
            in_decl: old(lay)@.in_decl || (old(lay)@.depth == 0 && is_decl_keyword(t@.tok)),
            ..old(lay)@
        }),
{
    let ghost st = lay@;
    let ghost before = out@;
    if lay.prev_line != 0 {
        push_char(out, '\n');
        if t.line > lay.prev_line && t.line - lay.prev_line > 1 {
            push_char(out, '\n');
        }
    }
    let ghost with_breaks = out@;
    let begins = lay.depth == 0 && decl_keyword(&t.tok);
    let mut level = if matches!(t.tok, Tok::RParen | Tok::RBrack | Tok::RBrace) {
        if lay.depth > 0 {
            lay.depth - 1
        } else {
            0
        }
    } else {
        lay.depth
    };
    if lay.in_decl && !begins && !any_true(&lay.stack) {
        level = level + 1;
    }
    if begins {
        lay.in_decl = true;
    }
    push_indent(out, level);
    proof {
        let breaks: Seq<char> = if st.prev_line == 0 {
            Seq::empty()
        } else if t@.line > st.prev_line + 1 {
            seq!['\n', '\n']
        } else {
            seq!['\n']
        };
        assert(with_breaks =~= before + breaks);
        assert(out@ =~= before + line_head(t@, st));
    }
}

/// Print what goes before the token at `i`, and note that its line has begun.
#[verifier::rlimit(30)]
fn lead(out: &mut String, vis: &Vec<&Token>, i: usize, lay: &mut Layout, prev_unary: bool)
    requires
        i < vis.len(),
        old(lay).depth <= i,
        i > 0 ==> prev_unary == is_unary(refs_view(vis@), i - 1),
    ensures
        final(out)@ == old(out)@ + lead_text(refs_view(vis@), i as int, old(lay)@),
        final(lay)@ == after_lead(refs_view(vis@), i as int, old(lay)@),
{
    let ghost ts = refs_view(vis@);
    let ghost st = lay@;
    let ghost before = out@;
    let t = vis[i];
    proof {
        assert(ts[i as int] == t@);
        if i > 0 {
            assert(ts[i - 1] == vis@[i - 1]@);
        }
        if i > 1 {
            assert(ts[i - 2] == vis@[i - 2]@);
        }
    }
    let first = i == 0 || t.line != vis[i - 1].line;
    if first {
        begin_line(out, t, lay);
        } else if matches!(t.tok, Tok::Comment(_)) {
        push_char(out, ' ');
        push_char(out, ' ');
        proof {
            assert(out@ =~= before + lead_text(ts, i as int, st));
        }
    } else {
        let var_colon = i >= 2 && vis[i - 2].line == t.line && matches!(vis[i - 2].tok, Tok::Var(_));
        if space_between(&vis[i - 1].tok, var_colon, &t.tok, prev_unary, &lay.blocks) {
            push_char(out, ' ');
        }
        proof {
            assert(out@ =~= before + lead_text(ts, i as int, st));
        }
    }
    lay.prev_line = t.line;
    proof {
        assert(lay@ == after_lead(ts, i as int, st));
    }
}

/// Note the brackets that the token at `i` opens or closes.
#[verifier::rlimit(30)]
fn track_exec(vis: &Vec<&Token>, i: usize, lay: &mut Layout)
    requires
        i < vis.len(),
        old(lay).depth <= i,
    ensures
        final(lay)@ == track(refs_view(vis@), i as int, old(lay)@),
        final(lay).depth <= i + 1,
{
    let ghost ts = refs_view(vis@);
    let t = vis[i];
    proof {
        assert(ts[i as int] == t@);
        if i > 0 {
            assert(ts[i - 1] == vis@[i - 1]@);
        }
        if i > 1 {
            assert(ts[i - 2] == vis@[i - 2]@);
        }
    }
    match &t.tok {
        Tok::LParen | Tok::LBrack => {
            lay.depth = lay.depth + 1;
            lay.stack.push(false);
        },
        Tok::LBrace => {
            lay.depth = lay.depth + 1;
            lay.stack.push(true);
            let block = i > 0 && (matches!(vis[i - 1].tok, Tok::KwDo) || (matches!(vis[i - 1].tok, Tok::Ident(_))
                && i >= 2 && matches!(vis[i - 2].tok, Tok::KwKrama)));
            lay.blocks.push(block);
        },
        Tok::RParen | Tok::RBrack => {
            if lay.depth > 0 {
                lay.depth = lay.depth - 1;
            }
            let _ = lay.stack.pop();
        },
        Tok::RBrace => {
            if lay.depth > 0 {
                lay.depth = lay.depth - 1;
            }
            let _ = lay.stack.pop();
            let _ = lay.blocks.pop();
            if lay.depth == 0 {
                lay.in_decl = false;
            }
        },
        Tok::Danda => {
            if lay.depth == 0 {
                lay.in_decl = false;
            }
        },
        _ => {},
    }
    proof {
        assert(lay.stack@ =~= track(ts, i as int, old(lay)@).stack);
        assert(lay.blocks@ =~= track(ts, i as int, old(lay)@).blocks);
    }
}

/// Lay out a token stream as source text (see `render_spec`).
#[verifier::rlimit(30)]
pub fn render(toks: &Vec<Token>) -> (r: String)
    ensures
        r@ == render_spec(tokens_view(toks@)),
{
    let vis = without_eof(toks);
    let ghost ts = refs_view(vis@);
    let mut out = String::new();
    let mut lay = Layout { depth: 0, blocks: Vec::new(), stack: Vec::new(), in_decl: false, prev_line: 0 };
    let mut prefix_ok = true;
    let mut prev_unary = false;
    let mut i: usize = 0;
    proof {
        assert(lay@ =~= initial_layout());
        assert(out@ + render_from(ts, 0, initial_layout()) =~= render_from(ts, 0, initial_layout()));
    }
    while i < vis.len()
        invariant
            i <= vis.len(),
            ts == refs_view(vis@),
            ts.len() == vis.len(),
            lay.depth <= i,
            prefix_ok == prefix_position(ts, i as int),
            i > 0 ==> prev_unary == is_unary(ts, i - 1),
            out@ + render_from(ts, i as int, lay@) == render_from(ts, 0, initial_layout()),
        decreases vis.len() - i,
    {
        let ghost st = lay@;
        let ghost before = out@;
        lead(&mut out, &vis, i, &mut lay, prev_unary);
        let ghost st1 = lay@;
        let t = vis[i];
        proof {
            assert(ts[i as int] == t@);
        }
        let text = token_text(t);
        push_str(&mut out, text.as_str());
        track_exec(&vis, i, &mut lay);
        let now_unary = prefix_ok && minus_or_bang(&t.tok);
        if !matches!(t.tok, Tok::Comment(_)) {
            prefix_ok = prefix_after(&t.tok);
        }
        prev_unary = now_unary;
        proof {
            assert(out@ =~= before + lead_text(ts, i as int, st) + token_text_spec(ts[i as int]));
            assert(out@ + render_from(ts, i + 1, lay@) =~= before + render_from(ts, i as int, st));
        }
        i = i + 1;
    }
    let ghost last = out@;
    push_char(&mut out, '\n');
    proof {
        assert(out@ =~= last + render_from(ts, i as int, lay@));
    }
    out
}

// ---------------------------------------------------------------------------
// Formatting a source file.
/// The token kinds of a stream.
pub open spec fn kinds(ts: Seq<TokenV>) -> Seq<TokV> {
    ts.map_values(|t: TokenV| t.tok)
}

/// The text of the formatted source, or why there is none: the source does
/// not lex, the layout does not lex, or the layout lexes to other token
/// kinds than the source (so that formatting never changes a program).
pub open spec fn format_source_spec(src: Seq<char>) -> Result<Seq<char>, Seq<char>> {
    match lex_full_spec(src) {
        Err(e) => Err(lex_error_text(e)),
        Ok(full) => {
            let out = render_spec(full);
            match lex_spec(src) {
                Err(e) => Err(lex_error_text(e)),
                Ok(before) => if out.len() >= usize::MAX {
                    Err("formatter output too long"@)
                } else {
                    match lex_spec(out) {
                        Err(e) => Err("formatter produced unlexable output: "@ + lex_error_text(e)),
                        Ok(after) => if kinds(before) == kinds(after) {
                            Ok(out)
                        } else {
                            Err("internal error: formatting would change the token stream; refusing"@)
                        },
                    }
                },
            }
        },
    }
}

/// Two token kinds are the same.
pub(crate) fn same_tok(a: &Tok, b: &Tok) -> (r: bool)
    ensures
        r == (a@ == b@),
{
    match (a, b) {
        (Tok::KwSutra, Tok::KwSutra) | (Tok::KwSamjna, Tok::KwSamjna) | (Tok::KwAdhikara, Tok::KwAdhikara)
        | (Tok::KwPrayoga, Tok::KwPrayoga) | (Tok::KwImport, Tok::KwImport) | (Tok::KwKrama, Tok::KwKrama)
        | (Tok::KwGana, Tok::KwGana) | (Tok::KwLet, Tok::KwLet) | (Tok::KwIn, Tok::KwIn) | (Tok::KwIf, Tok::KwIf)
        | (Tok::KwThen, Tok::KwThen) | (Tok::KwElse, Tok::KwElse) | (Tok::KwDo, Tok::KwDo)
        | (Tok::Arrow, Tok::Arrow) | (Tok::FatArrow, Tok::FatArrow) | (Tok::LArrow, Tok::LArrow)
        | (Tok::Define, Tok::Define) | (Tok::Eq, Tok::Eq) | (Tok::Colon, Tok::Colon) | (Tok::Dot, Tok::Dot)
        | (Tok::Bar, Tok::Bar) | (Tok::LParen, Tok::LParen) | (Tok::RParen, Tok::RParen)
        | (Tok::LBrack, Tok::LBrack) | (Tok::RBrack, Tok::RBrack) | (Tok::LBrace, Tok::LBrace)
        | (Tok::RBrace, Tok::RBrace) | (Tok::Comma, Tok::Comma) | (Tok::Danda, Tok::Danda)
        | (Tok::Eof, Tok::Eof) => true,
        (Tok::Ident(x), Tok::Ident(y)) => str_eq(x.as_str(), y.as_str()),
        (Tok::Var(x), Tok::Var(y)) => str_eq(x.as_str(), y.as_str()),
        (Tok::Str(x), Tok::Str(y)) => str_eq(x.as_str(), y.as_str()),
        (Tok::Float(x), Tok::Float(y)) => str_eq(x.as_str(), y.as_str()),
        (Tok::Op(x), Tok::Op(y)) => str_eq(x.as_str(), y.as_str()),
        (Tok::Comment(x), Tok::Comment(y)) => str_eq(x.as_str(), y.as_str()),
        (Tok::Int(x), Tok::Int(y)) => *x == *y,
        (Tok::Big(x), Tok::Big(y)) => *x == *y,
        _ => false,
    }
}

/// Two token streams have the same kinds, in order.
fn same_kinds(a: &Vec<Token>, b: &Vec<Token>) -> (r: bool)
    ensures
        r == (kinds(tokens_view(a@)) == kinds(tokens_view(b@))),
{
    let ghost ka = kinds(tokens_view(a@));
    let ghost kb = kinds(tokens_view(b@));
    if a.len() != b.len() {
        proof {
            assert(ka.len() != kb.len());
        }
        return false;
    }
    let mut i: usize = 0;
    while i < a.len()
        invariant
            i <= a.len(),
            a.len() == b.len(),
            ka == kinds(tokens_view(a@)),
            kb == kinds(tokens_view(b@)),
            forall|j: int| 0 <= j < i ==> ka[j] == kb[j],
        decreases a.len() - i,
    {
        proof {
            assert(ka[i as int] == a@[i as int]@.tok);
            assert(kb[i as int] == b@[i as int]@.tok);
        }
        if !same_tok(&a[i].tok, &b[i].tok) {
            return false;
        }
        i = i + 1;
    }
    proof {
        assert(ka =~= kb);
    }
    true
}

/// Format Sūtra source: normalise its layout, keeping its line breaks,
/// comments and spellings. The result is refused unless it lexes to the
/// same token kinds as the source.
#[verifier::rlimit(30)]
pub fn format_source(src: &str) -> (r: Result<String, String>)
    requires
        src@.len() < usize::MAX,
    ensures
        match r {
            Ok(out) => format_source_spec(src@) == Ok::<Seq<char>, Seq<char>>(out@),
            Err(e) => format_source_spec(src@) == Err::<Seq<char>, Seq<char>>(e@),
        },
{
    let full = match lex_full(src) {
        Ok(ts) => ts,
        Err(e) => {
            return Err(e.to_string());
        },
    };
    let out = render(&full);
    let before = match lex(src) {
        Ok(ts) => ts,
        Err(e) => {
            return Err(e.to_string());
        },
    };
    let out_chars = chars_of(out.as_str());
    if out_chars.len() == usize::MAX {
        return Err("formatter output too long".to_owned());
    }
    let after = match lex(out.as_str()) {
        Ok(ts) => ts,
        Err(e) => {
            let mut msg = "formatter produced unlexable output: ".to_owned();
            let text = e.to_string();
            push_str(&mut msg, text.as_str());
            proof {
                reveal_strlit("formatter produced unlexable output: ");
                assert(msg@ =~= "formatter produced unlexable output: "@ + lex_error_text(e@));
            }
            return Err(msg);
        },
    };
    if !same_kinds(&before, &after) {
        return Err("internal error: formatting would change the token stream; refusing".to_owned());
    }
    Ok(out)
}

/// Formatting never changes the program: a formatted text lexes to the same
/// token kinds as its source.
pub proof fn lemma_format_keeps_tokens(src: Seq<char>)
    requires
        format_source_spec(src) is Ok,
    ensures
        lex_spec(src) is Ok,
        lex_spec(format_source_spec(src)->Ok_0) is Ok,
        kinds(lex_spec(src)->Ok_0) == kinds(lex_spec(format_source_spec(src)->Ok_0)->Ok_0),
{
}

// ---------------------------------------------------------------------------
// A printed string literal lexes back to itself.
proof fn lemma_escape_char_shape(c: char)
    ensures
        escape_char(c).len() >= 1,
        escape_char(c).len() == 1 ==> escape_char(c)[0] == c && c != '"' && c != '\\' && c != '\n',
        escape_char(c).len() != 1 ==> escape_char(c).len() == 2 && escape_char(c)[0] == '\\'
            && crate::lexer::escape_spec(escape_char(c)[1]) == c,
{
}

/// Scanning the escaped text of `u` inside a literal collects `u`.
proof fn lemma_scan_escaped(cs: Seq<char>, j: int, line: nat, text: Seq<char>, u: Seq<char>)
    requires
        0 <= j,
        j + escaped(u).len() <= cs.len(),
        cs.subrange(j, j + escaped(u).len()) == escaped(u),
    ensures
        crate::lexer::scan_string(cs, j, line, text) == crate::lexer::scan_string(
            cs,
            j + escaped(u).len(),
            line,
            text + u,
        ),
    decreases u.len(),
{
    if u.len() == 0 {
        assert(text + u =~= text);
    } else {
        let w = u.drop_last();
        let c = u.last();
        let ew = escaped(w);
        let ec = escape_char(c);
        assert(escaped(u) == ew + ec);
        assert(cs.subrange(j, j + ew.len()) =~= escaped(u).subrange(0, ew.len() as int));
        assert(escaped(u).subrange(0, ew.len() as int) =~= ew);
        lemma_scan_escaped(cs, j, line, text, w);
        let m = j + ew.len();
        lemma_escape_char_shape(c);
        assert(cs[m] == escaped(u)[ew.len() as int]);
        assert(escaped(u)[ew.len() as int] == ec[0]);
        if ec.len() == 1 {
            assert((text + w).push(c) =~= text + u);
        } else {
            assert(cs[m + 1] == escaped(u)[ew.len() as int + 1]);
            assert(escaped(u)[ew.len() as int + 1] == ec[1]);
            assert((text + w).push(c) =~= text + u);
        }
    }
}

/// A string literal printed by the formatter lexes back to the same string
/// token, on its own line, followed by the end of input.
pub proof fn lemma_string_literal_round_trip(s: Seq<char>)
    ensures
        crate::lexer::lex_spec(tok_text_spec(TokV::Str(s))) == Ok::<Seq<TokenV>, crate::lexer::LexErrorV>(
            seq![TokenV { tok: TokV::Str(s), line: 1, raw: None }, TokenV { tok: TokV::Eof, line: 1, raw: None }],
        ),
{
    let cs = tok_text_spec(TokV::Str(s));
    let e = escaped(s);
    assert(cs == seq!['"'] + e + seq!['"']);
    assert(cs.subrange(1, 1 + e.len() as int) =~= e);
    lemma_scan_escaped(cs, 1, 1, Seq::empty(), s);
    assert(Seq::<char>::empty() + s =~= s);
    assert(cs[1 + e.len() as int] == '"');
    assert(crate::lexer::scan_string(cs, 1 + e.len() as int, 1, s) == crate::lexer::StrScan::Done {
        next: cs.len() as int,
        line: 1,
        text: s,
    });
    assert(cs[0] == '"');
    assert(crate::lexer::symbol_at(cs, 0) is None);
    assert(crate::lexer::lex_from(cs, cs.len() as int, 1, false) == Ok::<Seq<TokenV>, crate::lexer::LexErrorV>(
        seq![TokenV { tok: TokV::Eof, line: 1, raw: None }],
    ));
    assert(seq![TokenV { tok: TokV::Str(s), line: 1, raw: None }] + seq![TokenV { tok: TokV::Eof, line: 1, raw: None }]
        =~= seq![TokenV { tok: TokV::Str(s), line: 1, raw: None }, TokenV { tok: TokV::Eof, line: 1, raw: None }]);
}

} // verus!
