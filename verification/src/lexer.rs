//! The lexer (पद-विभाग) turns Sūtra source text into a token stream.
//!
//! Sūtra source is UTF-8 and identifiers may be written in Devanagari or Latin
//! (or mixed). Keywords are recognised in both scripts.
use crate::text::{
    char_debug, char_is_alphabetic, char_is_alphanumeric, char_is_whitespace, char_debug_text,
    chars_of, push_char, push_str, str_eq, unicode_alphabetic, unicode_numeric,
    unicode_white_space,
};
use crate::bigint::BigInt;
use crate::decimal::{nat_to_decimal, push_decimal};
use vstd::prelude::*;

verus! {

#[derive(Clone, Debug, PartialEq, Eq)]
pub enum Tok {
    /// `सूत्र` / `fn` / `sutra` — introduces a rewrite rule.
    KwSutra,
    /// `संज्ञा` / `type` / `samjna` — introduces a saṃjñā.
    KwSamjna,
    /// `अधिकार` / `section` / `adhikara` — a section header.
    KwAdhikara,
    /// `प्रयोग` / `eval` / `prayoga` — an expression to evaluate and print.
    KwPrayoga,
    /// `उपयोग` / `import` / `use` / `upayoga` — loads another file.
    KwImport,
    /// `क्रम` / `seq` / `sequence` / `krama` — a sequence system.
    KwKrama,
    /// `गण` / `class` / `gana` — an element class.
    KwGana,
    /// `अस्तु` / `let`.
    KwLet,
    /// `अतः` / `in`.
    KwIn,
    /// `चेत्` / `if`.
    KwIf,
    /// `तर्हि` / `then`.
    KwThen,
    /// `अन्यथा` / `else`.
    KwElse,
    /// `क्रिया` / `do` — a block of actions.
    KwDo,
    Ident(String),
    Var(String),
    Str(String),
    /// An integer literal that fits in 64 bits.
    Int(i64),
    /// A larger integer literal.
    Big(BigInt),
    /// A decimal-point literal, as spelled.
    Float(String),
    /// An infix or prefix operator.
    Op(String),
    /// `->` or `→`
    Arrow,
    /// `=>`
    FatArrow,
    /// `<-`
    LArrow,
    /// `:=`
    Define,
    /// `=`
    Eq,
    /// `:`
    Colon,
    /// `.`
    Dot,
    /// `|`
    Bar,
    LParen,
    RParen,
    LBrack,
    RBrack,
    LBrace,
    RBrace,
    Comma,
    /// `।`, `॥` or `;`
    Danda,
    /// A comment's text after `#` (kept only when lexing for the formatter).
    Comment(String),
    Eof,
}

#[derive(Clone, Debug)]
pub struct Token {
    pub tok: Tok,
    pub line: usize,
    /// The source spelling of a keyword or punctuation mark, kept for
    /// printing back.
    pub raw: Option<String>,
}

#[derive(Debug)]
pub struct LexError {
    pub msg: String,
    pub line: usize,
}

/// A token kind with its text as a character sequence.
pub enum TokV {
    KwSutra,
    KwSamjna,
    KwAdhikara,
    KwPrayoga,
    KwImport,
    KwKrama,
    KwGana,
    KwLet,
    KwIn,
    KwIf,
    KwThen,
    KwElse,
    KwDo,
    Ident(Seq<char>),
    Var(Seq<char>),
    Str(Seq<char>),
    Int(int),
    Big(int),
    Float(Seq<char>),
    Op(Seq<char>),
    Arrow,
    FatArrow,
    LArrow,
    Define,
    Eq,
    Colon,
    Dot,
    Bar,
    LParen,
    RParen,
    LBrack,
    RBrack,
    LBrace,
    RBrace,
    Comma,
    Danda,
    Comment(Seq<char>),
    Eof,
}

/// A token, the line it ends on, and the spelling of a keyword or number.
pub struct TokenV {
    pub tok: TokV,
    pub line: nat,
    pub raw: Option<Seq<char>>,
}

/// A lexing failure and the line where it was found.
pub struct LexErrorV {
    pub msg: Seq<char>,
    pub line: nat,
}

impl View for Tok {
    type V = TokV;

    open spec fn view(&self) -> TokV {
        match self {
            Tok::KwSutra => TokV::KwSutra,
            Tok::KwSamjna => TokV::KwSamjna,
            Tok::KwAdhikara => TokV::KwAdhikara,
            Tok::KwPrayoga => TokV::KwPrayoga,
            Tok::KwImport => TokV::KwImport,
            Tok::KwKrama => TokV::KwKrama,
            Tok::KwGana => TokV::KwGana,
            Tok::KwLet => TokV::KwLet,
            Tok::KwIn => TokV::KwIn,
            Tok::KwIf => TokV::KwIf,
            Tok::KwThen => TokV::KwThen,
            Tok::KwElse => TokV::KwElse,
            Tok::KwDo => TokV::KwDo,
            Tok::Ident(s) => TokV::Ident(s@),
            Tok::Var(s) => TokV::Var(s@),
            Tok::Str(s) => TokV::Str(s@),
            Tok::Int(n) => TokV::Int(*n as int),
            Tok::Big(b) => TokV::Big(b@),
            Tok::Float(s) => TokV::Float(s@),
            Tok::Op(s) => TokV::Op(s@),
            Tok::Arrow => TokV::Arrow,
            Tok::FatArrow => TokV::FatArrow,
            Tok::LArrow => TokV::LArrow,
            Tok::Define => TokV::Define,
            Tok::Eq => TokV::Eq,
            Tok::Colon => TokV::Colon,
            Tok::Dot => TokV::Dot,
            Tok::Bar => TokV::Bar,
            Tok::LParen => TokV::LParen,
            Tok::RParen => TokV::RParen,
            Tok::LBrack => TokV::LBrack,
            Tok::RBrack => TokV::RBrack,
            Tok::LBrace => TokV::LBrace,
            Tok::RBrace => TokV::RBrace,
            Tok::Comma => TokV::Comma,
            Tok::Danda => TokV::Danda,
            Tok::Comment(s) => TokV::Comment(s@),
            Tok::Eof => TokV::Eof,
        }
    }
}

impl View for Token {
    type V = TokenV;

    open spec fn view(&self) -> TokenV {
        TokenV {
            tok: self.tok@,
            line: self.line as nat,
            raw: match self.raw {
                Some(r) => Some(r@),
                None => None,
            },
        }
    }
}

impl View for LexError {
    type V = LexErrorV;

    open spec fn view(&self) -> LexErrorV {
        LexErrorV { msg: self.msg@, line: self.line as nat }
    }
}

/// How a lexing error reads.
pub open spec fn lex_error_text(e: LexErrorV) -> Seq<char> {
    "lex error (line "@ + nat_to_decimal(e.line) + "): "@ + e.msg
}

impl LexError {
    /// The error as text: its line and its message.
    pub fn to_string(&self) -> (r: String)
        ensures
            r@ == lex_error_text(self@),
    {
        let mut out = "lex error (line ".to_owned();
        push_decimal(&mut out, self.line as u64);
        push_str(&mut out, "): ");
        push_str(&mut out, self.msg.as_str());
        proof {
            reveal_strlit("lex error (line ");
            reveal_strlit("): ");
            assert(out@ =~= lex_error_text(self@));
        }
        out
    }
}

/// The tokens of a vector, viewed.
pub open spec fn tokens_view(v: Seq<Token>) -> Seq<TokenV> {
    v.map_values(|t: Token| t@)
}

// ---- character classes ----
/// Is `c` a Devanagari digit `०`..`९`?
pub open spec fn is_devanagari_digit(c: char) -> bool {
    '\u{0966}' <= c && c <= '\u{096F}'
}

/// Is `c` an ASCII or a Devanagari digit?
pub open spec fn is_digit_spec(c: char) -> bool {
    ('0' <= c && c <= '9') || is_devanagari_digit(c)
}

/// The value of a digit character (ASCII or Devanagari).
pub open spec fn digit_value(c: char) -> nat {
    if is_devanagari_digit(c) {
        (c as int - 0x0966) as nat
    } else {
        (c as int - 48) as nat
    }
}

/// Can a character start an identifier?
pub open spec fn ident_start_spec(c: char) -> bool {
    c == '_' || unicode_alphabetic(c)
}

/// Can a character continue an identifier? Alphanumerics and the whole
/// Devanagari block (matras, virama, …) except the daṇḍa punctuation.
pub open spec fn ident_continue_spec(c: char) -> bool {
    if c == '_' || c == '\u{200C}' || c == '\u{200D}' {
        true
    } else if c == '\u{0964}' || c == '\u{0965}' {
        false
    } else if '\u{0900}' <= c && c <= '\u{097F}' {
        true
    } else {
        unicode_alphabetic(c) || unicode_numeric(c)
    }
}

/// The symbol token at position `i` of `cs` and how many characters it
/// takes: punctuation, arrows and operators, the longest spelling first.
pub open spec fn symbol_at(cs: Seq<char>, i: int) -> Option<(TokV, int)> {
    let c = cs[i];
    let n1 = if i + 1 < cs.len() {
        cs[i + 1]
    } else {
        ' '
    };
    let n2 = if i + 2 < cs.len() {
        cs[i + 2]
    } else {
        ' '
    };
    if c == '(' {
        Some((TokV::LParen, 1))
    } else if c == ')' {
        Some((TokV::RParen, 1))
    } else if c == '[' {
        Some((TokV::LBrack, 1))
    } else if c == ']' {
        Some((TokV::RBrack, 1))
    } else if c == '{' {
        Some((TokV::LBrace, 1))
    } else if c == '}' {
        Some((TokV::RBrace, 1))
    } else if c == ',' {
        Some((TokV::Comma, 1))
    } else if c == '.' {
        Some((TokV::Dot, 1))
    } else if c == '।' || c == '॥' || c == ';' {
        Some((TokV::Danda, 1))
    } else if c == '→' {
        Some((TokV::Arrow, 1))
    } else if c == ':' {
        if n1 == '=' {
            Some((TokV::Define, 2))
        } else if n1 == ':' {
            Some((TokV::Op("::"@), 2))
        } else {
            Some((TokV::Colon, 1))
        }
    } else if c == '-' {
        if n1 == '>' {
            Some((TokV::Arrow, 2))
        } else {
            Some((TokV::Op("-"@), 1))
        }
    } else if c == '=' {
        if n1 == '>' {
            Some((TokV::FatArrow, 2))
        } else if n1 == '=' {
            Some((TokV::Op("=="@), 2))
        } else {
            Some((TokV::Eq, 1))
        }
    } else if c == '<' {
        if n1 == '-' {
            Some((TokV::LArrow, 2))
        } else if n1 == '=' {
            Some((TokV::Op("<="@), 2))
        } else {
            Some((TokV::Op("<"@), 1))
        }
    } else if c == '>' {
        if n1 == '>' && n2 == '=' {
            Some((TokV::Op(">>="@), 3))
        } else if n1 == '>' {
            Some((TokV::Op(">>"@), 2))
        } else if n1 == '=' {
            Some((TokV::Op(">="@), 2))
        } else {
            Some((TokV::Op(">"@), 1))
        }
    } else if c == '|' {
        if n1 == '|' {
            Some((TokV::Op("||"@), 2))
        } else if n1 == '>' {
            Some((TokV::Op("|>"@), 2))
        } else {
            Some((TokV::Bar, 1))
        }
    } else if c == '!' {
        if n1 == '=' {
            Some((TokV::Op("!="@), 2))
        } else {
            Some((TokV::Op("!"@), 1))
        }
    } else if c == '&' && n1 == '&' {
        Some((TokV::Op("&&"@), 2))
    } else if c == '+' {
        if n1 == '+' {
            Some((TokV::Op("++"@), 2))
        } else {
            Some((TokV::Op("+"@), 1))
        }
    } else if c == '*' {
        Some((TokV::Op("*"@), 1))
    } else if c == '/' {
        Some((TokV::Op("/"@), 1))
    } else if c == '%' {
        Some((TokV::Op("%"@), 1))
    } else if c == '^' {
        Some((TokV::Op("^"@), 1))
    } else if c == '$' {
        Some((TokV::Op("$"@), 1))
    } else {
        None
    }
}

/// Keywords in both scripts; any other name is an identifier.
pub open spec fn keyword_spec(name: Seq<char>) -> TokV {
    if name == "सूत्र"@ || name == "fn"@ || name == "sutra"@ {
        TokV::KwSutra
    } else if name == "संज्ञा"@ || name == "type"@ || name == "samjna"@ {
        TokV::KwSamjna
    } else if name == "अधिकार"@ || name == "section"@ || name == "adhikara"@ {
        TokV::KwAdhikara
    } else if name == "प्रयोग"@ || name == "eval"@ || name == "prayoga"@ {
        TokV::KwPrayoga
    } else if name == "उपयोग"@ || name == "import"@ || name == "use"@ || name == "upayoga"@ {
        TokV::KwImport
    } else if name == "क्रम"@ || name == "seq"@ || name == "sequence"@ || name == "krama"@ {
        TokV::KwKrama
    } else if name == "गण"@ || name == "class"@ || name == "gana"@ {
        TokV::KwGana
    } else if name == "अस्तु"@ || name == "let"@ {
        TokV::KwLet
    } else if name == "अतः"@ || name == "in"@ {
        TokV::KwIn
    } else if name == "चेत्"@ || name == "if"@ {
        TokV::KwIf
    } else if name == "तर्हि"@ || name == "then"@ {
        TokV::KwThen
    } else if name == "अन्यथा"@ || name == "else"@ {
        TokV::KwElse
    } else if name == "क्रिया"@ || name == "do"@ {
        TokV::KwDo
    } else {
        TokV::Ident(name)
    }
}

/// The spelling kept for a name: a keyword's, not an identifier's.
pub open spec fn name_raw(name: Seq<char>) -> Option<Seq<char>> {
    if keyword_spec(name) is Ident {
        None
    } else {
        Some(name)
    }
}

/// The token of an integer literal of value `v`: `Int` within 64 bits,
/// `Big` beyond.
pub open spec fn integer_token(v: nat) -> TokV {
    if v <= i64::MAX {
        TokV::Int(v as int)
    } else {
        TokV::Big(v as int)
    }
}

// ---- scanning ----
/// End of the run of identifier characters starting at `j`.
pub open spec fn ident_end(cs: Seq<char>, j: int) -> int
    decreases cs.len() - j,
{
    if 0 <= j < cs.len() && ident_continue_spec(cs[j]) {
        ident_end(cs, j + 1)
    } else {
        j
    }
}

/// End of the comment starting at `j`: the next newline or the end of input.
pub open spec fn comment_end(cs: Seq<char>, j: int) -> int
    decreases cs.len() - j,
{
    if 0 <= j < cs.len() && cs[j] != '\n' {
        comment_end(cs, j + 1)
    } else {
        j
    }
}

/// End of the run of digits starting at `j`.
pub open spec fn digit_end(cs: Seq<char>, j: int) -> int
    decreases cs.len() - j,
{
    if 0 <= j < cs.len() && is_digit_spec(cs[j]) {
        digit_end(cs, j + 1)
    } else {
        j
    }
}

/// The number spelled by a run of digits.
pub open spec fn numeral_value(ds: Seq<char>) -> nat
    decreases ds.len(),
{
    if ds.len() == 0 {
        0
    } else {
        numeral_value(ds.drop_last()) * 10 + digit_value(ds.last())
    }
}

/// The character an escape `\e` stands for.
pub open spec fn escape_spec(e: char) -> char {
    if e == 'n' {
        '\n'
    } else if e == 't' {
        '\t'
    } else {
        e
    }
}

/// The outcome of scanning a string literal's body.
pub enum StrScan {
    /// Closed at the quote before `next`, on `line`, with these contents.
    Done { next: int, line: nat, text: Seq<char> },
    /// Input ended inside the literal, on `line`.
    Unterminated { line: nat },
}

/// Scan a string literal's body from `j`, `text` collected so far.
pub open spec fn scan_string(cs: Seq<char>, j: int, line: nat, text: Seq<char>) -> StrScan
    decreases cs.len() - j,
{
    if j < 0 || j >= cs.len() {
        StrScan::Unterminated { line }
    } else if cs[j] == '"' {
        StrScan::Done { next: j + 1, line, text }
    } else if cs[j] == '\\' && j + 1 < cs.len() {
        scan_string(cs, j + 2, line, text.push(escape_spec(cs[j + 1])))
    } else if cs[j] == '\n' {
        scan_string(cs, j + 1, line + 1, text.push('\n'))
    } else {
        scan_string(cs, j + 1, line, text.push(cs[j]))
    }
}

/// A token in front of the rest of a lexing result.
pub open spec fn prepend(t: TokenV, rest: Result<Seq<TokenV>, LexErrorV>) -> Result<
    Seq<TokenV>,
    LexErrorV,
> {
    match rest {
        Ok(ts) => Ok(seq![t] + ts),
        Err(e) => Err(e),
    }
}

/// Tokens already produced in front of the rest of a lexing result.
pub open spec fn prefix_with(done: Seq<TokenV>, rest: Result<Seq<TokenV>, LexErrorV>) -> Result<
    Seq<TokenV>,
    LexErrorV,
> {
    match rest {
        Ok(ts) => Ok(done + ts),
        Err(e) => Err(e),
    }
}

pub open spec fn lex_error(msg: Seq<char>, line: nat) -> Result<Seq<TokenV>, LexErrorV> {
    Err(LexErrorV { msg, line })
}

/// Lex `cs` from position `i`, currently on `line`.
pub open spec fn lex_from(cs: Seq<char>, i: int, line: nat, keep: bool) -> Result<Seq<TokenV>, LexErrorV>
    decreases cs.len() - i,
    via lex_from_decreases
{
    if i < 0 || i >= cs.len() {
        Ok(seq![TokenV { tok: TokV::Eof, line, raw: None }])
    } else {
        let c = cs[i];
        if c == '\n' {
            lex_from(cs, i + 1, line + 1, keep)
        } else if unicode_white_space(c) {
            lex_from(cs, i + 1, line, keep)
        } else if c == '#' {
            if keep {
                prepend(
                    TokenV { tok: TokV::Comment(cs.subrange(i + 1, comment_end(cs, i))), line, raw: None },
                    lex_from(cs, comment_end(cs, i), line, keep),
                )
            } else {
                lex_from(cs, comment_end(cs, i), line, keep)
            }
        } else if symbol_at(cs, i) is Some {
            let (t, w) = symbol_at(cs, i)->0;
            prepend(TokenV { tok: t, line, raw: Some(cs.subrange(i, i + w)) }, lex_from(cs, i + w, line, keep))
        } else if c == '"' {
            match scan_string(cs, i + 1, line, Seq::empty()) {
                StrScan::Done { next, line: l2, text } => prepend(
                    TokenV { tok: TokV::Str(text), line: l2, raw: None },
                    lex_from(cs, next, l2, keep),
                ),
                StrScan::Unterminated { line: l2 } => lex_error(
                    "unterminated string literal"@,
                    l2,
                ),
            }
        } else if c == '?' {
            if i + 1 < cs.len() && ident_start_spec(cs[i + 1]) {
                let e = ident_end(cs, i + 1);
                prepend(
                    TokenV { tok: TokV::Var(cs.subrange(i + 1, e)), line, raw: None },
                    lex_from(cs, e, line, keep),
                )
            } else {
                lex_error("expected variable name after '?'"@, line)
            }
        } else if is_digit_spec(c) {
            let e = digit_end(cs, i);
            if e + 1 < cs.len() && cs[e] == '.' && is_digit_spec(cs[e + 1]) {
                let f = digit_end(cs, e + 1);
                prepend(TokenV { tok: TokV::Float(cs.subrange(i, f)), line, raw: None }, lex_from(cs, f, line, keep))
            } else {
                let v = numeral_value(cs.subrange(i, e));
                if v > u128::MAX {
                    lex_error("numeral too large"@, line)
                } else {
                    prepend(TokenV { tok: integer_token(v), line, raw: None }, lex_from(cs, e, line, keep))
                }
            }
        } else if ident_start_spec(c) {
            let e = ident_end(cs, i);
            prepend(
                TokenV { tok: keyword_spec(cs.subrange(i, e)), line, raw: name_raw(cs.subrange(i, e)) },
                lex_from(cs, e, line, keep),
            )
        } else {
            lex_error("unexpected character "@ + char_debug_text(c), line)
        }
    }
}

/// The whole source lexed from its start, on line 1.
pub open spec fn lex_spec(src: Seq<char>) -> Result<Seq<TokenV>, LexErrorV> {
    lex_from(src, 0, 1, false)
}

/// The whole source lexed with its comments kept as tokens.
pub open spec fn lex_full_spec(src: Seq<char>) -> Result<Seq<TokenV>, LexErrorV> {
    lex_from(src, 0, 1, true)
}

proof fn lemma_ident_end(cs: Seq<char>, j: int)
    ensures
        ident_end(cs, j) >= j,
        0 <= j < cs.len() && ident_continue_spec(cs[j]) ==> ident_end(cs, j) > j,
        0 <= j <= cs.len() ==> ident_end(cs, j) <= cs.len(),
    decreases cs.len() - j,
{
    if 0 <= j < cs.len() && ident_continue_spec(cs[j]) {
        lemma_ident_end(cs, j + 1);
    }
}

proof fn lemma_comment_end(cs: Seq<char>, j: int)
    ensures
        comment_end(cs, j) >= j,
        0 <= j < cs.len() && cs[j] == '#' ==> comment_end(cs, j) > j,
        0 <= j <= cs.len() ==> comment_end(cs, j) <= cs.len(),
    decreases cs.len() - j,
{
    if 0 <= j < cs.len() && cs[j] != '\n' {
        lemma_comment_end(cs, j + 1);
    }
}

proof fn lemma_digit_end(cs: Seq<char>, j: int)
    ensures
        digit_end(cs, j) >= j,
        0 <= j < cs.len() && is_digit_spec(cs[j]) ==> digit_end(cs, j) > j,
        0 <= j <= cs.len() ==> digit_end(cs, j) <= cs.len(),
    decreases cs.len() - j,
{
    if 0 <= j < cs.len() && is_digit_spec(cs[j]) {
        lemma_digit_end(cs, j + 1);
    }
}

proof fn lemma_scan_string_advances(cs: Seq<char>, j: int, line: nat, text: Seq<char>)
    ensures
        scan_string(cs, j, line, text) matches StrScan::Done { next, .. } ==> next > j && next
            <= cs.len(),
    decreases cs.len() - j,
{
    if 0 <= j < cs.len() && cs[j] != '"' {
        if cs[j] == '\\' && j + 1 < cs.len() {
            lemma_scan_string_advances(cs, j + 2, line, text.push(escape_spec(cs[j + 1])));
        } else if cs[j] == '\n' {
            lemma_scan_string_advances(cs, j + 1, line + 1, text.push('\n'));
        } else {
            lemma_scan_string_advances(cs, j + 1, line, text.push(cs[j]));
        }
    }
}

proof fn lemma_scan_string_line(cs: Seq<char>, j: int, line: nat, text: Seq<char>)
    ensures
        scan_string(cs, j, line, text) matches StrScan::Done { line: l2, .. } ==> l2 >= line,
    decreases cs.len() - j,
{
    if 0 <= j < cs.len() && cs[j] != '"' {
        if cs[j] == '\\' && j + 1 < cs.len() {
            lemma_scan_string_line(cs, j + 2, line, text.push(escape_spec(cs[j + 1])));
        } else if cs[j] == '\n' {
            lemma_scan_string_line(cs, j + 1, line + 1, text.push('\n'));
        } else {
            lemma_scan_string_line(cs, j + 1, line, text.push(cs[j]));
        }
    }
}

/// A well-shaped token stream from `line` on: it ends with the only `Eof`,
/// and line numbers start at `line` and never decrease.
pub open spec fn well_shaped(ts: Seq<TokenV>, line: nat) -> bool {
    &&& ts.len() > 0
    &&& ts.last().tok == TokV::Eof
    &&& forall|j: int| 0 <= j < ts.len() - 1 ==> (#[trigger] ts[j]).tok != TokV::Eof
    &&& forall|j: int| 0 <= j < ts.len() ==> line <= (#[trigger] ts[j]).line
    &&& forall|j: int, k: int| 0 <= j <= k < ts.len() ==> (#[trigger] ts[j]).line <= (#[trigger] ts[k]).line
}

proof fn lemma_prepend_shaped(t: TokenV, ts: Seq<TokenV>, line: nat)
    requires
        t.tok != TokV::Eof,
        line <= t.line,
        well_shaped(ts, t.line),
    ensures
        well_shaped(seq![t] + ts, line),
{
    let r = seq![t] + ts;
    assert(r.last() == ts.last());
    assert forall|j: int| 0 <= j < r.len() - 1 implies (#[trigger] r[j]).tok != TokV::Eof by {
        if j > 0 {
            assert(r[j] == ts[j - 1]);
        }
    }
    assert forall|j: int| 0 <= j < r.len() implies line <= (#[trigger] r[j]).line by {
        if j > 0 {
            assert(r[j] == ts[j - 1]);
        }
    }
    assert forall|j: int, k: int| 0 <= j <= k < r.len() implies (#[trigger] r[j]).line <= (
    #[trigger] r[k]).line by {
        if j > 0 {
            assert(r[j] == ts[j - 1] && r[k] == ts[k - 1]);
        } else if k > 0 {
            assert(r[k] == ts[k - 1]);
        }
    }
}

proof fn lemma_lex_from_shaped(cs: Seq<char>, i: int, line: nat, keep: bool)
    ensures
        lex_from(cs, i, line, keep) matches Ok(ts) ==> well_shaped(ts, line),
    decreases cs.len() - i,
{
    if i < 0 || i >= cs.len() {
        let ts = seq![TokenV { tok: TokV::Eof, line, raw: None }];
        assert(ts.last() == ts[0]);
    } else {
        let c = cs[i];
        lemma_comment_end(cs, i);
        lemma_digit_end(cs, i);
        lemma_ident_end(cs, i);
        lemma_ident_end(cs, i + 1);
        lemma_scan_string_advances(cs, i + 1, line, Seq::empty());
        lemma_scan_string_line(cs, i + 1, line, Seq::empty());
        if c == '\n' {
            lemma_lex_from_shaped(cs, i + 1, line + 1, keep);
            if let Ok(ts) = lex_from(cs, i + 1, line + 1, keep) {
                assert(well_shaped(ts, line));
            }
        } else if unicode_white_space(c) {
            lemma_lex_from_shaped(cs, i + 1, line, keep);
        } else if c == '#' {
            lemma_lex_from_shaped(cs, comment_end(cs, i), line, keep);
            if keep {
                if let Ok(ts) = lex_from(cs, comment_end(cs, i), line, keep) {
                    lemma_prepend_shaped(
                        TokenV { tok: TokV::Comment(cs.subrange(i + 1, comment_end(cs, i))), line, raw: None },
                        ts,
                        line,
                    );
                }
            }
        } else if symbol_at(cs, i) is Some {
            let (t, w) = symbol_at(cs, i)->0;
            lemma_lex_from_shaped(cs, i + w, line, keep);
            if let Ok(ts) = lex_from(cs, i + w, line, keep) {
                lemma_prepend_shaped(TokenV { tok: t, line, raw: Some(cs.subrange(i, i + w)) }, ts, line);
            }
        } else if c == '"' {
            if let StrScan::Done { next, line: l2, text } = scan_string(cs, i + 1, line, Seq::empty()) {
                lemma_lex_from_shaped(cs, next, l2, keep);
                if let Ok(ts) = lex_from(cs, next, l2, keep) {
                    lemma_prepend_shaped(TokenV { tok: TokV::Str(text), line: l2, raw: None }, ts, line);
                }
            }
        } else if c == '?' {
            if i + 1 < cs.len() && ident_start_spec(cs[i + 1]) {
                let e = ident_end(cs, i + 1);
                lemma_lex_from_shaped(cs, e, line, keep);
                if let Ok(ts) = lex_from(cs, e, line, keep) {
                    lemma_prepend_shaped(TokenV { tok: TokV::Var(cs.subrange(i + 1, e)), line, raw: None }, ts, line);
                }
            }
        } else if is_digit_spec(c) {
            let e = digit_end(cs, i);
            if e + 1 < cs.len() && cs[e] == '.' && is_digit_spec(cs[e + 1]) {
                let f = digit_end(cs, e + 1);
                lemma_digit_end(cs, e + 1);
                lemma_lex_from_shaped(cs, f, line, keep);
                if let Ok(ts) = lex_from(cs, f, line, keep) {
                    lemma_prepend_shaped(TokenV { tok: TokV::Float(cs.subrange(i, f)), line, raw: None }, ts, line);
                }
            } else {
                let v = numeral_value(cs.subrange(i, e));
                if v <= u128::MAX {
                    lemma_lex_from_shaped(cs, e, line, keep);
                    if let Ok(ts) = lex_from(cs, e, line, keep) {
                        lemma_prepend_shaped(TokenV { tok: integer_token(v), line, raw: None }, ts, line);
                    }
                }
            }
        } else if ident_start_spec(c) {
            let e = ident_end(cs, i);
            assert(ident_continue_spec(c));
            lemma_lex_from_shaped(cs, e, line, keep);
            if let Ok(ts) = lex_from(cs, e, line, keep) {
                let k = keyword_spec(cs.subrange(i, e));
                assert(k != TokV::Eof);
                lemma_prepend_shaped(TokenV { tok: k, line, raw: name_raw(cs.subrange(i, e)) }, ts, line);
            }
        }
    }
}

/// Every successful lexing ends with exactly one `Eof` token, the last, and
/// its line numbers start at 1 and never decrease.
pub proof fn lemma_lexed_stream_shape(src: Seq<char>)
    ensures
        lex_spec(src) matches Ok(ts) ==> well_shaped(ts, 1),
        lex_full_spec(src) matches Ok(ts) ==> well_shaped(ts, 1),
{
    lemma_lex_from_shaped(src, 0, 1, false);
    lemma_lex_from_shaped(src, 0, 1, true);
}

#[via_fn]
proof fn lex_from_decreases(cs: Seq<char>, i: int, line: nat, keep: bool) {
    if 0 <= i < cs.len() {
        let c = cs[i];
        lemma_comment_end(cs, i);
        lemma_digit_end(cs, i);
        lemma_ident_end(cs, i);
        lemma_ident_end(cs, i + 1);
        lemma_scan_string_advances(cs, i + 1, line, Seq::empty());
        if c == '"' {
        } else if is_digit_spec(c) {
            lemma_digit_end(cs, i + 1);
            if digit_end(cs, i) + 1 < cs.len() {
                lemma_digit_end(cs, digit_end(cs, i) + 1);
            }
        } else if ident_start_spec(c) && symbol_at(cs, i) is None {
            assert(ident_continue_spec(c));
        }
    }
}

proof fn lemma_emit(done: Seq<TokenV>, t: TokenV, rest: Result<Seq<TokenV>, LexErrorV>)
    ensures
        prefix_with(done, prepend(t, rest)) == prefix_with(done.push(t), rest),
{
    if let Ok(ts) = rest {
        assert(done + (seq![t] + ts) =~= done.push(t) + ts);
    }
}

proof fn lemma_tokens_view_push(v: Seq<Token>, t: Token)
    ensures
        tokens_view(v.push(t)) == tokens_view(v).push(t@),
{
    assert(tokens_view(v.push(t)) =~= tokens_view(v).push(t@));
}

/// Devanagari digit `०`..`९` to its numeric value, if applicable.
fn devanagari_digit(c: char) -> (r: Option<u32>)
    ensures
        r == (if is_devanagari_digit(c) {
            Some((c as u32 - 0x0966) as u32)
        } else {
            None::<u32>
        }),
{
    if '\u{0966}' <= c && c <= '\u{096F}' {
        Some(c as u32 - 0x0966)
    } else {
        None
    }
}

fn is_digit(c: char) -> (r: bool)
    ensures
        r == is_digit_spec(c),
{
    ('0' <= c && c <= '9') || devanagari_digit(c).is_some()
}

/// Can a character start an identifier?
fn ident_start(c: char) -> (r: bool)
    ensures
        r == ident_start_spec(c),
{
    c == '_' || char_is_alphabetic(c)
}

/// Can a character continue an identifier?
///
/// Besides ordinary alphanumerics we accept the Devanagari block (matras,
/// virama / halant for conjuncts, etc.) so that words like `रिक्त` or
/// `क्रमगुणित` lex as a single identifier — but we exclude the daṇḍa
/// punctuation `।`/`॥` which terminate declarations.
fn ident_continue(c: char) -> (r: bool)
    ensures
        r == ident_continue_spec(c),
{
    if c == '_' || c == '\u{200C}' || c == '\u{200D}' {
        return true;  // ZWNJ / ZWJ
    }
    if c == '\u{0964}' || c == '\u{0965}' {
        return false;  // daṇḍa, double daṇḍa
    }
    if '\u{0900}' <= c && c <= '\u{097F}' {
        return true;  // rest of the Devanagari block
    }
    char_is_alphanumeric(c)
}

/// Skip a `#` comment: the position of the next newline, or the end.
fn skip_comment(cs: &Vec<char>, i: usize) -> (j: usize)
    requires
        i <= cs.len(),
    ensures
        j == comment_end(cs@, i as int),
{
    let mut j = i;
    while j < cs.len() && cs[j] != '\n'
        invariant
            i <= j <= cs.len(),
            comment_end(cs@, i as int) == comment_end(cs@, j as int),
        decreases cs.len() - j,
    {
        j = j + 1;
    }
    j
}

/// Collect the identifier characters starting at `i`.
fn scan_ident(cs: &Vec<char>, i: usize) -> (r: (String, usize))
    requires
        i <= cs.len(),
    ensures
        r.1 == ident_end(cs@, i as int),
        r.0@ == cs@.subrange(i as int, r.1 as int),
        i <= r.1 <= cs.len(),
{
    let mut name = String::new();
    let mut j = i;
    while j < cs.len() && ident_continue(cs[j])
        invariant
            i <= j <= cs.len(),
            ident_end(cs@, i as int) == ident_end(cs@, j as int),
            name@ =~= cs@.subrange(i as int, j as int),
        decreases cs.len() - j,
    {
        push_char(&mut name, cs[j]);
        j = j + 1;
    }
    (name, j)
}

/// A numeral's value never decreases as digits are appended.
proof fn lemma_numeral_monotone(ds: Seq<char>, k: int)
    requires
        0 <= k <= ds.len(),
    ensures
        numeral_value(ds.take(k)) <= numeral_value(ds),
    decreases ds.len() - k,
{
    if k < ds.len() {
        lemma_numeral_monotone(ds, k + 1);
        assert(ds.take(k + 1).drop_last() =~= ds.take(k));
    } else {
        assert(ds.take(k) =~= ds);
    }
}

/// Read the numeral starting at `i`: its value and end, or `None` when it
/// does not fit in `u128`.
fn scan_numeral(cs: &Vec<char>, i: usize) -> (r: (Option<u128>, usize))
    requires
        i <= cs.len(),
    ensures
        r.1 == digit_end(cs@, i as int),
        i <= r.1 <= cs.len(),
        r.0 is None <==> numeral_value(cs@.subrange(i as int, r.1 as int)) > u128::MAX,
        r.0 matches Some(v) ==> v == numeral_value(cs@.subrange(i as int, r.1 as int)),
{
    let mut val: u128 = 0;
    let mut j = i;
    proof {
        assert(cs@.subrange(i as int, i as int) =~= Seq::<char>::empty());
    }
    while j < cs.len() && is_digit(cs[j])
        invariant
            i <= j <= cs.len(),
            digit_end(cs@, i as int) == digit_end(cs@, j as int),
            val == numeral_value(cs@.subrange(i as int, j as int)),
        decreases cs.len() - j,
    {
        let c = cs[j];
        let d: u32 = if let Some(v) = devanagari_digit(c) {
            v
        } else {
            c as u32 - 48
        };
        proof {
            let sub1 = cs@.subrange(i as int, j + 1);
            assert(sub1.drop_last() =~= cs@.subrange(i as int, j as int));
            assert(sub1.last() == c);
            assert(d == digit_value(c));
        }
        let next = match val.checked_mul(10) {
            Some(t) => t.checked_add(d as u128),
            None => None,
        };
        match next {
            Some(v) => {
                val = v;
            },
            None => {
                proof {
                    let e = digit_end(cs@, i as int);
                    lemma_digit_end(cs@, j as int);
                    let ds = cs@.subrange(i as int, e);
                    assert(ds.take(j + 1 - i) =~= cs@.subrange(i as int, j + 1));
                    lemma_numeral_monotone(ds, j + 1 - i);
                }
                let e = skip_digits(cs, j);
                return (None, e);
            },
        }
        j = j + 1;
    }
    (Some(val), j)
}

/// The end of the run of digits at `j`.
fn skip_digits(cs: &Vec<char>, j: usize) -> (e: usize)
    requires
        j <= cs.len(),
    ensures
        e == digit_end(cs@, j as int),
        j <= e <= cs.len(),
{
    let mut e = j;
    while e < cs.len() && is_digit(cs[e])
        invariant
            j <= e <= cs.len(),
            digit_end(cs@, j as int) == digit_end(cs@, e as int),
        decreases cs.len() - e,
    {
        e = e + 1;
    }
    e
}

/// Scan a string literal's body starting at `i` (just after the opening
/// quote): `Ok((contents, next, line))`, or `Err(line)` when unterminated.
fn scan_string_literal(cs: &Vec<char>, i: usize, line: usize) -> (r: Result<
    (String, usize, usize),
    usize,
>)
    requires
        i <= cs.len(),
        cs.len() < usize::MAX,
        line <= i + 1,
    ensures
        r matches Ok((text, next, l)) ==> scan_string(cs@, i as int, line as nat, Seq::empty())
            == (StrScan::Done { next: next as int, line: l as nat, text: text@ }) && l <= next + 1
            && next <= cs.len() && next > i && l >= line,
        r matches Err(l) ==> scan_string(cs@, i as int, line as nat, Seq::empty())
            == (StrScan::Unterminated { line: l as nat }),
{
    let mut s = String::new();
    let mut j = i;
    let ghost line0 = line as nat;
    let mut cur_line = line;
    proof {
        assert(s@ =~= Seq::<char>::empty());
    }
    loop
        invariant
            i <= j <= cs.len(),
            cs.len() < usize::MAX,
            cur_line <= j + 1,
            cur_line >= line,
            line0 == line as nat,
            scan_string(cs@, i as int, line0, Seq::empty()) == scan_string(
                cs@,
                j as int,
                cur_line as nat,
                s@,
            ),
        decreases cs.len() - j,
    {
        if j >= cs.len() {
            proof {
                assert(scan_string(cs@, j as int, cur_line as nat, s@) == StrScan::Unterminated {
                    line: cur_line as nat,
                });
            }
            return Err(cur_line);
        }
        let d = cs[j];
        if d == '"' {
            proof {
                assert(scan_string(cs@, j as int, cur_line as nat, s@) == StrScan::Done {
                    next: j + 1,
                    line: cur_line as nat,
                    text: s@,
                });
            }
            return Ok((s, j + 1, cur_line));
        }
        if d == '\\' && j + 1 < cs.len() {
            let e = cs[j + 1];
            let ch = if e == 'n' {
                '\n'
            } else if e == 't' {
                '\t'
            } else {
                e
            };
            push_char(&mut s, ch);
            j = j + 2;
            continue ;
        }
        if d == '\n' {
            cur_line = cur_line + 1;
        }
        push_char(&mut s, d);
        j = j + 1;
    }
}

/// A keyword in either script, or else an identifier.
fn keyword(name: String) -> (t: Tok)
    ensures
        t@ == keyword_spec(name@),
{
    let n = name.as_str();
    if str_eq(n, "सूत्र") || str_eq(n, "fn") || str_eq(n, "sutra") {
        Tok::KwSutra
    } else if str_eq(n, "संज्ञा") || str_eq(n, "type") || str_eq(n, "samjna") {
        Tok::KwSamjna
    } else if str_eq(n, "अधिकार") || str_eq(n, "section") || str_eq(n, "adhikara") {
        Tok::KwAdhikara
    } else if str_eq(n, "प्रयोग") || str_eq(n, "eval") || str_eq(n, "prayoga") {
        Tok::KwPrayoga
    } else if str_eq(n, "उपयोग") || str_eq(n, "import") || str_eq(n, "use") || str_eq(n, "upayoga") {
        Tok::KwImport
    } else if str_eq(n, "क्रम") || str_eq(n, "seq") || str_eq(n, "sequence") || str_eq(n, "krama") {
        Tok::KwKrama
    } else if str_eq(n, "गण") || str_eq(n, "class") || str_eq(n, "gana") {
        Tok::KwGana
    } else if str_eq(n, "अस्तु") || str_eq(n, "let") {
        Tok::KwLet
    } else if str_eq(n, "अतः") || str_eq(n, "in") {
        Tok::KwIn
    } else if str_eq(n, "चेत्") || str_eq(n, "if") {
        Tok::KwIf
    } else if str_eq(n, "तर्हि") || str_eq(n, "then") {
        Tok::KwThen
    } else if str_eq(n, "अन्यथा") || str_eq(n, "else") {
        Tok::KwElse
    } else if str_eq(n, "क्रिया") || str_eq(n, "do") {
        Tok::KwDo
    } else {
        Tok::Ident(name)
    }
}

/// An operator token spelled `s`.
fn op(s: &str) -> (t: Tok)
    ensures
        t@ == TokV::Op(s@),
{
    Tok::Op(s.to_owned())
}

/// The symbol token at `i`, and its width.
fn symbol(cs: &Vec<char>, i: usize) -> (r: Option<(Tok, usize)>)
    requires
        i < cs.len(),
    ensures
        match r {
            Some((t, w)) => symbol_at(cs@, i as int) == Some((t@, w as int)),
            None => symbol_at(cs@, i as int) is None,
        },
{
    let c = cs[i];
    let n1 = if i + 1 < cs.len() {
        cs[i + 1]
    } else {
        ' '
    };
    let n2 = if i + 1 < cs.len() && i + 2 < cs.len() {
        cs[i + 2]
    } else {
        ' '
    };
    if c == '(' {
        Some((Tok::LParen, 1))
    } else if c == ')' {
        Some((Tok::RParen, 1))
    } else if c == '[' {
        Some((Tok::LBrack, 1))
    } else if c == ']' {
        Some((Tok::RBrack, 1))
    } else if c == '{' {
        Some((Tok::LBrace, 1))
    } else if c == '}' {
        Some((Tok::RBrace, 1))
    } else if c == ',' {
        Some((Tok::Comma, 1))
    } else if c == '.' {
        Some((Tok::Dot, 1))
    } else if c == '।' || c == '॥' || c == ';' {
        Some((Tok::Danda, 1))
    } else if c == '→' {
        Some((Tok::Arrow, 1))
    } else if c == ':' {
        if n1 == '=' {
            Some((Tok::Define, 2))
        } else if n1 == ':' {
            Some((op("::"), 2))
        } else {
            Some((Tok::Colon, 1))
        }
    } else if c == '-' {
        if n1 == '>' {
            Some((Tok::Arrow, 2))
        } else {
            Some((op("-"), 1))
        }
    } else if c == '=' {
        if n1 == '>' {
            Some((Tok::FatArrow, 2))
        } else if n1 == '=' {
            Some((op("=="), 2))
        } else {
            Some((Tok::Eq, 1))
        }
    } else if c == '<' {
        if n1 == '-' {
            Some((Tok::LArrow, 2))
        } else if n1 == '=' {
            Some((op("<="), 2))
        } else {
            Some((op("<"), 1))
        }
    } else if c == '>' {
        if n1 == '>' && n2 == '=' {
            Some((op(">>="), 3))
        } else if n1 == '>' {
            Some((op(">>"), 2))
        } else if n1 == '=' {
            Some((op(">="), 2))
        } else {
            Some((op(">"), 1))
        }
    } else if c == '|' {
        if n1 == '|' {
            Some((op("||"), 2))
        } else if n1 == '>' {
            Some((op("|>"), 2))
        } else {
            Some((Tok::Bar, 1))
        }
    } else if c == '!' {
        if n1 == '=' {
            Some((op("!="), 2))
        } else {
            Some((op("!"), 1))
        }
    } else if c == '&' && n1 == '&' {
        Some((op("&&"), 2))
    } else if c == '+' {
        if n1 == '+' {
            Some((op("++"), 2))
        } else {
            Some((op("+"), 1))
        }
    } else if c == '*' {
        Some((op("*"), 1))
    } else if c == '/' {
        Some((op("/"), 1))
    } else if c == '%' {
        Some((op("%"), 1))
    } else if c == '^' {
        Some((op("^"), 1))
    } else if c == '$' {
        Some((op("$"), 1))
    } else {
        None
    }
}

/// The characters `cs[i..j]` as a string.
fn span_text(cs: &Vec<char>, i: usize, j: usize) -> (r: String)
    requires
        i <= j <= cs.len(),
    ensures
        r@ == cs@.subrange(i as int, j as int),
{
    let mut out = String::new();
    let mut k = i;
    while k < j
        invariant
            i <= k <= j <= cs.len(),
            out@ =~= cs@.subrange(i as int, k as int),
        decreases j - k,
    {
        push_char(&mut out, cs[k]);
        k = k + 1;
    }
    out
}

/// A lexing error carrying `msg`.
fn error_at(msg: &str, line: usize) -> (e: LexError)
    ensures
        e@ == (LexErrorV { msg: msg@, line: line as nat }),
{
    LexError { msg: msg.to_owned(), line }
}

/// Split Sūtra source into tokens, ending with `Eof`.
pub fn lex(src: &str) -> (r: Result<Vec<Token>, LexError>)
    requires
        src@.len() < usize::MAX,
    ensures
        r matches Ok(ts) ==> lex_spec(src@) == Ok::<Seq<TokenV>, LexErrorV>(tokens_view(ts@)),
        r matches Err(e) ==> lex_spec(src@) == Err::<Seq<TokenV>, LexErrorV>(e@),
{
    lex_tokens(src, false)
}

/// Split Sūtra source into tokens with its comments kept, for the
/// formatter.
pub fn lex_full(src: &str) -> (r: Result<Vec<Token>, LexError>)
    requires
        src@.len() < usize::MAX,
    ensures
        r matches Ok(ts) ==> lex_full_spec(src@) == Ok::<Seq<TokenV>, LexErrorV>(tokens_view(ts@)),
        r matches Err(e) ==> lex_full_spec(src@) == Err::<Seq<TokenV>, LexErrorV>(e@),
{
    lex_tokens(src, true)
}

/// Lex the source, keeping comments as tokens where `keep` holds.
fn lex_tokens(src: &str, keep: bool) -> (r: Result<Vec<Token>, LexError>)
    requires
        src@.len() < usize::MAX,
    ensures
        r matches Ok(ts) ==> lex_from(src@, 0, 1, keep) == Ok::<Seq<TokenV>, LexErrorV>(tokens_view(ts@)),
        r matches Err(e) ==> lex_from(src@, 0, 1, keep) == Err::<Seq<TokenV>, LexErrorV>(e@),
{
    let chars = chars_of(src);
    let mut i: usize = 0;
    let mut line: usize = 1;
    let mut out: Vec<Token> = Vec::new();
    proof {
        assert(tokens_view(out@) =~= Seq::<TokenV>::empty());
        assert(prefix_with(Seq::<TokenV>::empty(), lex_from(chars@, 0, 1, keep)) == lex_from(chars@, 0, 1, keep))
            by {
            if let Ok(ts) = lex_from(chars@, 0, 1, keep) {
                assert(Seq::<TokenV>::empty() + ts =~= ts);
            }
        }
    }
    while i < chars.len()
        invariant
            chars@ == src@,
            i <= chars.len(),
            chars.len() < usize::MAX,
            1 <= line <= i + 1,
            lex_from(src@, 0, 1, keep) == prefix_with(tokens_view(out@), lex_from(chars@, i as int, line as nat, keep)),
        decreases chars.len() - i,
    {
        let c = chars[i];
        let ghost cs = chars@;
        let ghost done = tokens_view(out@);
        // Whitespace.
        if c == '\n' {
            line = line + 1;
            i = i + 1;
            continue ;
        }
        if char_is_whitespace(c) {
            i = i + 1;
            continue ;
        }
        // Comments: `#` to end of line.
        if c == '#' {
            proof {
                lemma_comment_end(cs, i as int);
            }
            let e = skip_comment(&chars, i);
            if keep {
                let t = Token { tok: Tok::Comment(span_text(&chars, i + 1, e)), line, raw: None };
                proof {
                    lemma_emit(done, t@, lex_from(cs, e as int, line as nat, keep));
                    lemma_tokens_view_push(out@, t);
                }
                out.push(t);
            }
            i = e;
            continue ;
        }
        // Punctuation, arrows and operators.
        if let Some((tok, w)) = symbol(&chars, i) {
            let t = Token { tok, line, raw: Some(span_text(&chars, i, i + w)) };
            proof {
                lemma_emit(done, t@, lex_from(cs, i + w, line as nat, keep));
                lemma_tokens_view_push(out@, t);
            }
            out.push(t);
            i = i + w;
            continue ;
        }
        // String literal.
        if c == '"' {
            match scan_string_literal(&chars, i + 1, line) {
                Ok((s, next, l2)) => {
                    let t = Token { tok: Tok::Str(s), line: l2, raw: None };
                    proof {
                        lemma_emit(done, t@, lex_from(cs, next as int, l2 as nat, keep));
                        lemma_tokens_view_push(out@, t);
                    }
                    out.push(t);
                    line = l2;
                    i = next;
                    continue ;
                },
                Err(l2) => {
                    return Err(error_at("unterminated string literal", l2));
                },
            }
        }
        // Variable `?name`.
        if c == '?' {
            if i + 1 >= chars.len() || !ident_start(chars[i + 1]) {
                return Err(error_at("expected variable name after '?'", line));
            }
            let (name, e) = scan_ident(&chars, i + 1);
            let t = Token { tok: Tok::Var(name), line, raw: None };
            proof {
                lemma_emit(done, t@, lex_from(cs, e as int, line as nat, keep));
                lemma_tokens_view_push(out@, t);
            }
            out.push(t);
            i = e;
            continue ;
        }
        // Numbers (ASCII or Devanagari digits).
        if is_digit(c) {
            let e0 = skip_digits(&chars, i);
            if e0 + 1 < chars.len() && chars[e0] == '.' && is_digit(chars[e0 + 1]) {
                let f = skip_digits(&chars, e0 + 1);
                let text = span_text(&chars, i, f);
                let t = Token { tok: Tok::Float(text), line, raw: None };
                proof {
                    lemma_emit(done, t@, lex_from(cs, f as int, line as nat, keep));
                    lemma_tokens_view_push(out@, t);
                }
                out.push(t);
                i = f;
                continue ;
            }
            let (val, e) = scan_numeral(&chars, i);
            match val {
                Some(v) => {
                    let tok = if v <= 0x7fff_ffff_ffff_ffffu128 {
                        Tok::Int(v as i64)
                    } else {
                        Tok::Big(BigInt::from_u128(false, v))
                    };
                    let t = Token { tok, line, raw: None };
                    proof {
                        lemma_digit_end(cs, i as int);
                        assert(t@.tok == integer_token(v as nat));
                        lemma_emit(done, t@, lex_from(cs, e as int, line as nat, keep));
                        lemma_tokens_view_push(out@, t);
                    }
                    out.push(t);
                    i = e;
                    continue ;
                },
                None => {
                    return Err(error_at("numeral too large", line));
                },
            }
        }
        // Identifier or keyword.
        if ident_start(c) {
            let (name, e) = scan_ident(&chars, i);
            let spelled = name.clone();
            let tok = keyword(name);
            let raw = match tok {
                Tok::Ident(_) => None,
                _ => Some(spelled),
            };
            let t = Token { tok, line, raw };
            proof {
                assert(ident_continue_spec(c));
                lemma_ident_end(cs, i as int);
                lemma_emit(done, t@, lex_from(cs, e as int, line as nat, keep));
                lemma_tokens_view_push(out@, t);
            }
            out.push(t);
            i = e;
            continue ;
        }
        let mut msg = String::new();
        push_str(&mut msg, "unexpected character ");
        let shown = char_debug(c);
        push_str(&mut msg, shown.as_str());
        proof {
            assert(msg@ =~= "unexpected character "@ + char_debug_text(c));
        }
        return Err(LexError { msg, line });
    }
    let t = Token { tok: Tok::Eof, line, raw: None };
    proof {
        lemma_tokens_view_push(out@, t);
        assert(tokens_view(out@) + seq![t@] =~= tokens_view(out@).push(t@));
    }
    out.push(t);
    Ok(out)
}

} // verus!
