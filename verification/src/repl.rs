//! Interactive input: telling a complete input from one that continues on
//! the next line, telling commands, declarations and expressions apart, and
//! the session's step from one input to the next.
use crate::ast::{shift_rules, FloatLit, Program, ProgramV, Term, TermV, terms_view};
use crate::lexer::{lex, lex_spec, tokens_view, Tok, TokV, TokenV};
use crate::parser::{
    empty_program, literal_oracle, literal_reader_ok, parse_expr, parse_expr_spec, parse_program,
    parse_program_spec, ParseError, ParseErrorV,
};
use crate::text::{char_is_whitespace, chars_of, str_eq, unicode_white_space};
use vstd::prelude::*;

verus! {

/// The keywords, in every spelling, that begin a declaration.
pub const DECLARATION_WORDS: [&'static str; 27] = [
    "सूत्र",
    "fn",
    "sutra",
    "संज्ञा",
    "type",
    "samjna",
    "गण",
    "class",
    "gana",
    "क्रम",
    "seq",
    "sequence",
    "krama",
    "शिवसूत्र",
    "shivasutra",
    "sivasutra",
    "inventory",
    "अधिकार",
    "section",
    "adhikara",
    "प्रयोग",
    "eval",
    "prayoga",
    "उपयोग",
    "import",
    "use",
    "upayoga",
];

/// Is `w` one of the declaration keywords?
pub open spec fn is_declaration_word(w: Seq<char>) -> bool {
    exists|i: int| 0 <= i < 27 && (#[trigger] DECLARATION_WORDS@[i])@ == w
}

/// The first position from `i` on that is not white space.
pub open spec fn skip_space(s: Seq<char>, i: int) -> int
    decreases s.len() - i,
{
    if 0 <= i < s.len() && unicode_white_space(s[i]) {
        skip_space(s, i + 1)
    } else {
        i
    }
}

/// The end of the run of non-space characters that starts at `i`.
pub open spec fn word_end(s: Seq<char>, i: int) -> int
    decreases s.len() - i,
{
    if 0 <= i < s.len() && !unicode_white_space(s[i]) {
        word_end(s, i + 1)
    } else {
        i
    }
}

/// The first whitespace-separated word of `s`, or empty if there is none.
pub open spec fn first_word(s: Seq<char>) -> Seq<char> {
    let b = skip_space(s, 0);
    s.subrange(b, word_end(s, b))
}

proof fn lemma_skip_space(s: Seq<char>, i: int)
    requires
        0 <= i <= s.len(),
    ensures
        i <= skip_space(s, i) <= s.len(),
    decreases s.len() - i,
{
    if i < s.len() && unicode_white_space(s[i]) {
        lemma_skip_space(s, i + 1);
    }
}

proof fn lemma_word_end(s: Seq<char>, i: int)
    requires
        0 <= i <= s.len(),
    ensures
        i <= word_end(s, i) <= s.len(),
    decreases s.len() - i,
{
    if i < s.len() && !unicode_white_space(s[i]) {
        lemma_word_end(s, i + 1);
    }
}

/// Does the input begin with a declaration keyword (so that it is read as
/// declarations rather than as an expression)?
pub fn starts_declaration(input: &str) -> (r: bool)
    ensures
        r == is_declaration_word(first_word(input@)),
{
    let cs = chars_of(input);
    let mut b: usize = 0;
    while b < cs.len() && char_is_whitespace(cs[b])
        invariant
            cs@ == input@,
            b <= cs.len(),
            skip_space(cs@, 0) == skip_space(cs@, b as int),
        decreases cs.len() - b,
    {
        b = b + 1;
    }
    proof {
        lemma_skip_space(cs@, b as int);
    }
    let mut e: usize = b;
    while e < cs.len() && !char_is_whitespace(cs[e])
        invariant
            cs@ == input@,
            b <= e <= cs.len(),
            word_end(cs@, b as int) == word_end(cs@, e as int),
        decreases cs.len() - e,
    {
        e = e + 1;
    }
    let mut word = String::new();
    let mut k = b;
    while k < e
        invariant
            b <= k <= e <= cs.len(),
            word@ == cs@.subrange(b as int, k as int),
        decreases e - k,
    {
        crate::text::push_char(&mut word, cs[k]);
        proof {
            assert(cs@.subrange(b as int, k + 1) =~= cs@.subrange(b as int, k as int).push(cs@[k as int]));
        }
        k = k + 1;
    }
    let table = DECLARATION_WORDS;
    let mut i: usize = 0;
    while i < 27
        invariant
            table@ == DECLARATION_WORDS@,
            i <= 27,
            word@ == first_word(input@),
            forall|j: int| 0 <= j < i ==> (#[trigger] DECLARATION_WORDS@[j])@ != word@,
        decreases 27 - i,
    {
        if str_eq(table[i], word.as_str()) {
            return true;
        }
        i = i + 1;
    }
    false
}

/// Does a token open a bracket (`(`, `[`, `{`)?
pub open spec fn opens_bracket(t: TokV) -> bool {
    t is LParen || t is LBrack || t is LBrace
}

/// Does a token close a bracket (`)`, `]`, `}`)?
pub open spec fn closes_bracket(t: TokV) -> bool {
    t is RParen || t is RBrack || t is RBrace
}

/// How many tokens satisfy `p`.
pub open spec fn count_tokens(ts: Seq<TokenV>, p: spec_fn(TokV) -> bool) -> nat
    decreases ts.len(),
{
    if ts.len() == 0 {
        0
    } else {
        count_tokens(ts.drop_last(), p) + if p(ts.last().tok) {
            1nat
        } else {
            0nat
        }
    }
}

/// The last token that is not `Eof`.
pub open spec fn last_real(ts: Seq<TokenV>) -> Option<TokV>
    decreases ts.len(),
{
    if ts.len() == 0 {
        None
    } else if ts.last().tok is Eof {
        last_real(ts.drop_last())
    } else {
        Some(ts.last().tok)
    }
}

/// A token after which an input cannot end (`2 +`, `f(x) ->`, `[1,`).
pub open spec fn expects_more(t: TokV) -> bool {
    t is Op || t is Arrow || t is FatArrow || t is LArrow || t is Define || t is Eq || t is Bar
        || t is Comma || t is Colon || t is Dot
}

/// Is a multi-line input complete? It lexes; no bracket is left open; it
/// does not end in a token that needs a continuation; and a declaration has
/// reached its daṇḍa (or, for a block, its closing brace).
pub open spec fn input_complete_spec(buf: Seq<char>) -> bool {
    match lex_spec(buf) {
        Err(_) => false,
        Ok(ts) => {
            &&& count_tokens(ts, |t: TokV| opens_bracket(t)) <= count_tokens(ts, |t: TokV| closes_bracket(t))
            &&& !(last_real(ts) matches Some(t) && expects_more(t))
            &&& !(is_declaration_word(first_word(buf)) && count_tokens(ts, |t: TokV| t is Danda) == 0
                && count_tokens(ts, |t: TokV| t is RBrace) == 0)
        },
    }
}

/// Is a multi-line input complete, so that it can be read as a whole?
pub fn input_complete(buf: &str) -> (r: bool)
    requires
        buf@.len() < usize::MAX,
    ensures
        r == input_complete_spec(buf@),
{
    let toks = match lex(buf) {
        Ok(t) => t,
        Err(_) => {
            return false;
        },
    };
    let ghost tv = tokens_view(toks@);
    let ghost po = |t: TokV| opens_bracket(t);
    let ghost pc = |t: TokV| closes_bracket(t);
    let ghost pd = |t: TokV| t is Danda;
    let ghost pb = |t: TokV| t is RBrace;
    let mut opened: usize = 0;
    let mut closed: usize = 0;
    let mut dandas: usize = 0;
    let mut braces: usize = 0;
    let mut i: usize = 0;
    proof {
        assert(tv.take(0) =~= Seq::<TokenV>::empty());
    }
    while i < toks.len()
        invariant
            i <= toks.len(),
            tv == tokens_view(toks@),
            tv.len() == toks.len(),
            opened <= i && closed <= i && dandas <= i && braces <= i,
            opened == count_tokens(tv.take(i as int), po),
            closed == count_tokens(tv.take(i as int), pc),
            dandas == count_tokens(tv.take(i as int), pd),
            braces == count_tokens(tv.take(i as int), pb),
            po == (|t: TokV| opens_bracket(t)),
            pc == (|t: TokV| closes_bracket(t)),
            pd == (|t: TokV| t is Danda),
            pb == (|t: TokV| t is RBrace),
        decreases toks.len() - i,
    {
        proof {
            assert(tv.take(i + 1).drop_last() =~= tv.take(i as int));
            assert(tv.take(i + 1).last() == toks@[i as int]@);
        }
        match &toks[i].tok {
            Tok::LParen | Tok::LBrack | Tok::LBrace => {
                opened = opened + 1;
            },
            Tok::RParen | Tok::RBrack => {
                closed = closed + 1;
            },
            Tok::RBrace => {
                closed = closed + 1;
                braces = braces + 1;
            },
            Tok::Danda => {
                dandas = dandas + 1;
            },
            _ => {},
        }
        i = i + 1;
    }
    proof {
        assert(tv.take(toks.len() as int) =~= tv);
    }
    if opened > closed {
        return false;
    }
    // The last token before `Eof`.
    let mut k: usize = toks.len();
    proof {
        assert(tv.take(k as int) =~= tv);
    }
    while k > 0 && matches!(toks[k - 1].tok, Tok::Eof)
        invariant
            k <= toks.len(),
            tv == tokens_view(toks@),
            tv.len() == toks.len(),
            last_real(tv) == last_real(tv.take(k as int)),
        decreases k,
    {
        proof {
            assert(tv.take(k as int).drop_last() =~= tv.take(k - 1));
            assert(tv.take(k as int).last() == toks@[k - 1]@);
        }
        k = k - 1;
    }
    if k > 0 {
        proof {
            assert(tv.take(k as int).last() == toks@[k - 1]@);
        }
        let more = match &toks[k - 1].tok {
            Tok::Op(_) | Tok::Arrow | Tok::FatArrow | Tok::LArrow | Tok::Define | Tok::Eq | Tok::Bar
            | Tok::Comma | Tok::Colon | Tok::Dot => true,
            _ => false,
        };
        if more {
            return false;
        }
    }
    if starts_declaration(buf) && dandas == 0 && braces == 0 {
        return false;
    }
    true
}

/// A blank line typed while an input is unfinished cancels that input.
pub open spec fn cancels_spec(buf: Seq<char>, line: Seq<char>) -> bool {
    buf.len() > 0 && trim(line).len() == 0 && !input_complete_spec(buf)
}

/// Does typing `line` cancel the unfinished input `buf`?
pub fn cancels(buf: &str, line: &str) -> (r: bool)
    requires
        buf@.len() < usize::MAX,
    ensures
        r == cancels_spec(buf@, line@),
{
    let b = chars_of(buf);
    if b.len() == 0 {
        return false;
    }
    let t = trim_text(line);
    let tc = chars_of(t.as_str());
    if tc.len() != 0 {
        return false;
    }
    !input_complete(buf)
}

// ---------------------------------------------------------------------------
// Reading one REPL input.
/// The end of `s[..e]` once trailing white space is dropped.
pub open spec fn trim_back(s: Seq<char>, e: int) -> int
    decreases e,
{
    if 0 < e <= s.len() && unicode_white_space(s[e - 1]) {
        trim_back(s, e - 1)
    } else {
        e
    }
}

/// `s` without leading and trailing white space.
pub open spec fn trim(s: Seq<char>) -> Seq<char> {
    let b = skip_space(s, 0);
    let e = trim_back(s, s.len() as int);
    if b < e {
        s.subrange(b, e)
    } else {
        Seq::empty()
    }
}

/// What one complete REPL input asks for.
pub enum ReplInput {
    /// Nothing but white space.
    Blank,
    /// `:name arg`, a command to the REPL itself.
    Command { name: String, arg: String },
    /// Declarations to add to the session.
    Declaration,
    /// An expression to evaluate.
    Expression,
}

pub enum ReplInputV {
    Blank,
    Command { name: Seq<char>, arg: Seq<char> },
    Declaration,
    Expression,
}

impl View for ReplInput {
    type V = ReplInputV;

    open spec fn view(&self) -> ReplInputV {
        match self {
            ReplInput::Blank => ReplInputV::Blank,
            ReplInput::Command { name, arg } => ReplInputV::Command { name: name@, arg: arg@ },
            ReplInput::Declaration => ReplInputV::Declaration,
            ReplInput::Expression => ReplInputV::Expression,
        }
    }
}

/// How an input is read: trimmed, it is blank; or `:` then a command name
/// up to the first white space, the rest (trimmed) its argument; or
/// declarations when it begins with a declaration keyword; or else an
/// expression.
pub open spec fn repl_input_spec(input: Seq<char>) -> ReplInputV {
    let t = trim(input);
    if t.len() == 0 {
        ReplInputV::Blank
    } else if t[0] == ':' {
        let rest = t.drop_first();
        let w = word_end(rest, 0);
        let after = if w < rest.len() {
            rest.subrange(w + 1, rest.len() as int)
        } else {
            Seq::empty()
        };
        ReplInputV::Command { name: rest.subrange(0, w), arg: trim(after) }
    } else if is_declaration_word(first_word(t)) {
        ReplInputV::Declaration
    } else {
        ReplInputV::Expression
    }
}

proof fn lemma_trim_back(s: Seq<char>, e: int)
    requires
        0 <= e <= s.len(),
    ensures
        0 <= trim_back(s, e) <= e,
    decreases e,
{
    if 0 < e && unicode_white_space(s[e - 1]) {
        lemma_trim_back(s, e - 1);
    }
}

/// The characters of `cs` from `b` to `e`.
fn chars_text(cs: &Vec<char>, b: usize, e: usize) -> (r: String)
    requires
        b <= e <= cs.len(),
    ensures
        r@ == cs@.subrange(b as int, e as int),
{
    let mut out = String::new();
    let mut k = b;
    while k < e
        invariant
            b <= k <= e <= cs.len(),
            out@ == cs@.subrange(b as int, k as int),
        decreases e - k,
    {
        crate::text::push_char(&mut out, cs[k]);
        proof {
            assert(cs@.subrange(b as int, k + 1) =~= cs@.subrange(b as int, k as int).push(cs@[k as int]));
        }
        k = k + 1;
    }
    out
}

/// `s` without leading and trailing white space.
pub fn trim_text(s: &str) -> (r: String)
    ensures
        r@ == trim(s@),
{
    let cs = chars_of(s);
    let mut b: usize = 0;
    while b < cs.len() && char_is_whitespace(cs[b])
        invariant
            cs@ == s@,
            b <= cs.len(),
            skip_space(cs@, 0) == skip_space(cs@, b as int),
        decreases cs.len() - b,
    {
        b = b + 1;
    }
    proof {
        lemma_skip_space(cs@, b as int);
    }
    let mut e: usize = cs.len();
    while e > 0 && char_is_whitespace(cs[e - 1])
        invariant
            cs@ == s@,
            e <= cs.len(),
            trim_back(cs@, cs.len() as int) == trim_back(cs@, e as int),
        decreases e,
    {
        e = e - 1;
    }
    if b < e {
        chars_text(&cs, b, e)
    } else {
        String::new()
    }
}

/// Read one complete REPL input (see `repl_input_spec`).
pub fn repl_input(input: &str) -> (r: ReplInput)
    ensures
        r@ == repl_input_spec(input@),
{
    let t = trim_text(input);
    let cs = chars_of(t.as_str());
    if cs.len() == 0 {
        return ReplInput::Blank;
    }
    if cs[0] == ':' {
        let ghost rest = cs@.drop_first();
        let mut w: usize = 1;
        while w < cs.len() && !char_is_whitespace(cs[w])
            invariant
                cs@ == t@,
                1 <= w <= cs.len(),
                rest == cs@.drop_first(),
                word_end(rest, 0) == word_end(rest, w - 1),
            decreases cs.len() - w,
        {
            proof {
                assert(rest[w - 1] == cs@[w as int]);
            }
            w = w + 1;
        }
        proof {
            if w < cs.len() {
                assert(rest[w - 1] == cs@[w as int]);
            }
            assert(word_end(rest, (w - 1) as int) == (w - 1) as int);
        }
        let name = chars_text(&cs, 1, w);
        let after = if w < cs.len() {
            chars_text(&cs, w + 1, cs.len())
        } else {
            String::new()
        };
        let arg = trim_text(after.as_str());
        proof {
            assert(name@ =~= rest.subrange(0, w - 1));
            if w < cs.len() {
                assert(after@ =~= rest.subrange(w as int, rest.len() as int));
            } else {
                assert(after@ =~= Seq::<char>::empty());
            }
        }
        return ReplInput::Command { name, arg };
    }
    if starts_declaration(t.as_str()) {
        ReplInput::Declaration
    } else {
        ReplInput::Expression
    }
}

// ---------------------------------------------------------------------------
// The session.
/// A REPL session: the user's definitions and the inputs so far.
pub struct ReplState {
    pub session: Program,
    pub history: Vec<String>,
}

pub struct ReplStateV {
    pub session: ProgramV,
    pub history: Seq<Seq<char>>,
}

impl View for ReplState {
    type V = ReplStateV;

    open spec fn view(&self) -> ReplStateV {
        ReplStateV { session: self.session@, history: crate::ast::names_view(self.history@) }
    }
}

/// What the front end is to do after an input.
pub enum ReplAction {
    Nothing,
    Quit,
    Help,
    ListRules,
    ListSamjnas,
    ListClasses,
    /// Evaluate and show the saṃjñās of the parsed argument.
    TypeOf(Result<Term, ParseError>),
    /// Load the file at this path into the session.
    Load(String),
    Check,
    Reset,
    History,
    Unknown(String),
    /// Declarations were added; these प्रयोग expressions are to be shown.
    Defined(Vec<Term>),
    /// The input did not parse.
    Failed(ParseError),
    /// Evaluate this expression.
    Evaluate(Term),
    /// The session cannot number more rules.
    TooManyRules,
}

pub enum ReplActionV {
    Nothing,
    Quit,
    Help,
    ListRules,
    ListSamjnas,
    ListClasses,
    TypeOf(Result<TermV, ParseErrorV>),
    Load(Seq<char>),
    Check,
    Reset,
    History,
    Unknown(Seq<char>),
    Defined(Seq<TermV>),
    Failed(ParseErrorV),
    Evaluate(TermV),
    TooManyRules,
}

impl View for ReplAction {
    type V = ReplActionV;

    open spec fn view(&self) -> ReplActionV {
        match self {
            ReplAction::Nothing => ReplActionV::Nothing,
            ReplAction::Quit => ReplActionV::Quit,
            ReplAction::Help => ReplActionV::Help,
            ReplAction::ListRules => ReplActionV::ListRules,
            ReplAction::ListSamjnas => ReplActionV::ListSamjnas,
            ReplAction::ListClasses => ReplActionV::ListClasses,
            ReplAction::TypeOf(r) => ReplActionV::TypeOf(
                match r {
                    Ok(t) => Ok(t@),
                    Err(e) => Err(e@),
                },
            ),
            ReplAction::Load(p) => ReplActionV::Load(p@),
            ReplAction::Check => ReplActionV::Check,
            ReplAction::Reset => ReplActionV::Reset,
            ReplAction::History => ReplActionV::History,
            ReplAction::Unknown(n) => ReplActionV::Unknown(n@),
            ReplAction::Defined(ts) => ReplActionV::Defined(terms_view(ts@)),
            ReplAction::Failed(e) => ReplActionV::Failed(e@),
            ReplAction::Evaluate(t) => ReplActionV::Evaluate(t@),
            ReplAction::TooManyRules => ReplActionV::TooManyRules,
        }
    }
}

/// `a` with `b`'s declarations after its own (as `Program::extend` joins).
pub open spec fn extended(a: ProgramV, b: ProgramV, base: nat) -> ProgramV {
    ProgramV {
        rules: a.rules + shift_rules(b.rules, base),
        samjnas: a.samjnas + b.samjnas,
        prayogas: a.prayogas + b.prayogas,
        imports: a.imports + b.imports,
        seq: a.seq + b.seq,
        classes: a.classes + b.classes,
        inventory: if b.inventory.len() > 0 {
            b.inventory
        } else {
            a.inventory
        },
    }
}

/// The rules can be numbered after `base` earlier ones.
pub open spec fn fits_after(base: nat, b: ProgramV) -> bool {
    forall|i: int| 0 <= i < b.rules.len() ==> base + (#[trigger] b.rules[i]).order <= usize::MAX
}

/// A command's effect: the action, and the state (only `:reset` clears the
/// session).
pub open spec fn command_step(st: ReplStateV, name: Seq<char>, arg: Seq<char>, fl: spec_fn(Seq<char>) -> (u64, Seq<char>)) -> (
    ReplStateV,
    ReplActionV,
) {
    if name == "quit"@ || name == "q"@ {
        (st, ReplActionV::Quit)
    } else if name == "help"@ || name == "h"@ {
        (st, ReplActionV::Help)
    } else if name == "rules"@ {
        (st, ReplActionV::ListRules)
    } else if name == "samjnas"@ {
        (st, ReplActionV::ListSamjnas)
    } else if name == "classes"@ {
        (st, ReplActionV::ListClasses)
    } else if name == "type"@ {
        (st, ReplActionV::TypeOf(parse_expr_spec(arg, fl)))
    } else if name == "load"@ {
        (st, ReplActionV::Load(arg))
    } else if name == "check"@ {
        (st, ReplActionV::Check)
    } else if name == "reset"@ {
        (ReplStateV { session: empty_program(), ..st }, ReplActionV::Reset)
    } else if name == "history"@ {
        (st, ReplActionV::History)
    } else {
        (st, ReplActionV::Unknown(name))
    }
}

/// One input's effect on the session: a blank input does nothing; any
/// other is recorded (trimmed) in the history; a command acts as
/// `command_step` says; declarations are parsed and joined to the session
/// without their प्रयोग expressions, which are handed out to be shown; an
/// expression is parsed to be evaluated.
pub open spec fn repl_step_spec(st: ReplStateV, input: Seq<char>, fl: spec_fn(Seq<char>) -> (u64, Seq<char>)) -> (
    ReplStateV,
    ReplActionV,
) {
    let t = trim(input);
    let st1 = ReplStateV { history: st.history.push(t), ..st };
    match repl_input_spec(input) {
        ReplInputV::Blank => (st, ReplActionV::Nothing),
        ReplInputV::Command { name, arg } => command_step(st1, name, arg, fl),
        ReplInputV::Declaration => match parse_program_spec(t, fl) {
            Err(e) => (st1, ReplActionV::Failed(e)),
            Ok(p) => if fits_after(st.session.rules.len(), p) {
                (
                    ReplStateV {
                        session: extended(st.session, ProgramV { prayogas: Seq::empty(), ..p }, st.session.rules.len()),
                        ..st1
                    },
                    ReplActionV::Defined(p.prayogas),
                )
            } else {
                (st1, ReplActionV::TooManyRules)
            },
        },
        ReplInputV::Expression => match parse_expr_spec(t, fl) {
            Ok(e) => (st1, ReplActionV::Evaluate(e)),
            Err(e) => (st1, ReplActionV::Failed(e)),
        },
    }
}

fn command_exec<F: Fn(String) -> FloatLit>(st: ReplState, name: String, arg: String, float: &F) -> (r: (ReplState, ReplAction))
    requires
        literal_reader_ok(*float),
        arg@.len() < usize::MAX,
    ensures
        (r.0@, r.1@) == command_step(st@, name@, arg@, literal_oracle(*float)),
{
    let n = name.as_str();
    if str_eq(n, "quit") || str_eq(n, "q") {
        (st, ReplAction::Quit)
    } else if str_eq(n, "help") || str_eq(n, "h") {
        (st, ReplAction::Help)
    } else if str_eq(n, "rules") {
        (st, ReplAction::ListRules)
    } else if str_eq(n, "samjnas") {
        (st, ReplAction::ListSamjnas)
    } else if str_eq(n, "classes") {
        (st, ReplAction::ListClasses)
    } else if str_eq(n, "type") {
        let parsed = parse_expr(arg.as_str(), float);
        (st, ReplAction::TypeOf(parsed))
    } else if str_eq(n, "load") {
        (st, ReplAction::Load(arg))
    } else if str_eq(n, "check") {
        (st, ReplAction::Check)
    } else if str_eq(n, "reset") {
        let ReplState { session: _, history } = st;
        let fresh = Program::default();
        proof {
            assert(fresh@ == empty_program());
        }
        (ReplState { session: fresh, history }, ReplAction::Reset)
    } else if str_eq(n, "history") {
        (st, ReplAction::History)
    } else {
        (st, ReplAction::Unknown(name))
    }
}

/// Do the rules fit after `base` earlier ones?
pub(crate) fn rules_fit(base: usize, p: &Program) -> (r: bool)
    ensures
        r == fits_after(base as nat, p@),
{
    let mut i: usize = 0;
    while i < p.rules.len()
        invariant
            i <= p.rules.len(),
            forall|j: int| 0 <= j < i ==> base + (#[trigger] p@.rules[j]).order <= usize::MAX,
        decreases p.rules.len() - i,
    {
        proof {
            assert(p@.rules[i as int] == p.rules@[i as int]@);
        }
        if p.rules[i].order > usize::MAX - base {
            return false;
        }
        i = i + 1;
    }
    true
}

/// Take one complete input (see `repl_step_spec`).
pub fn repl_step<F: Fn(String) -> FloatLit>(state: ReplState, input: &str, float: &F) -> (r: (ReplState, ReplAction))
    requires
        input@.len() < usize::MAX,
        literal_reader_ok(*float),
    ensures
        (r.0@, r.1@) == repl_step_spec(state@, input@, literal_oracle(*float)),
{
    let kind = repl_input(input);
    if matches!(kind, ReplInput::Blank) {
        return (state, ReplAction::Nothing);
    }
    let t = trim_text(input);
    let ReplState { session, history } = state;
    let ghost h0 = history@;
    let mut history = history;
    history.push(t.clone());
    proof {
        assert(crate::ast::names_view(history@) =~= crate::ast::names_view(h0).push(t@));
        lemma_trim_len(input@);
    }
    let st1 = ReplState { session, history };
    match kind {
        ReplInput::Blank => (st1, ReplAction::Nothing),
        ReplInput::Command { name, arg } => {
            proof {
                lemma_trim_len(trim(input@).drop_first());
                lemma_command_arg_len(input@);
            }
            command_exec(st1, name, arg, float)
        },
        ReplInput::Declaration => match parse_program(t.as_str(), float) {
            Err(e) => (st1, ReplAction::Failed(e)),
            Ok(p) => {
                let base = st1.session.rules.len();
                if rules_fit(base, &p) {
                    let ghost pr = p.rules@;
                    proof {
                        assert forall|i: int| 0 <= i < pr.len() implies base + (#[trigger] pr[i]).order <= usize::MAX by {
                            assert(p@.rules[i] == pr[i]@);
                        }
                    }
                    let Program { rules, samjnas, prayogas, imports, seq, classes, inventory } = p;
                    let decls = Program { rules, samjnas, prayogas: Vec::new(), imports, seq, classes, inventory };
                    proof {
                        assert(terms_view(decls.prayogas@) =~= Seq::<TermV>::empty());
                    }
                    let ReplState { mut session, history } = st1;
                    session.extend(decls);
                    (ReplState { session, history }, ReplAction::Defined(prayogas))
                } else {
                    (st1, ReplAction::TooManyRules)
                }
            },
        },
        ReplInput::Expression => match parse_expr(t.as_str(), float) {
            Ok(e) => (st1, ReplAction::Evaluate(e)),
            Err(e) => (st1, ReplAction::Failed(e)),
        },
    }
}

proof fn lemma_trim_len(s: Seq<char>)
    ensures
        trim(s).len() <= s.len(),
{
    let b = skip_space(s, 0);
    let e = trim_back(s, s.len() as int);
    lemma_skip_space(s, 0);
    lemma_trim_back(s, s.len() as int);
}

proof fn lemma_command_arg_len(input: Seq<char>)
    ensures
        repl_input_spec(input) matches ReplInputV::Command { arg, .. } ==> arg.len() <= input.len(),
{
    let t = trim(input);
    lemma_trim_len(input);
    if t.len() > 0 && t[0] == ':' {
        let rest = t.drop_first();
        lemma_word_end(rest, 0);
        let w = word_end(rest, 0);
        if w < rest.len() {
            lemma_trim_len(rest.subrange(w + 1, rest.len() as int));
        } else {
            lemma_trim_len(Seq::<char>::empty());
        }
    }
}

} // verus!
