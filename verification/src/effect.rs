//! Effect-as-data. A program is pure: `मुख्य` evaluates to an action, a term
//! built from effect constructors, and a runtime performs it. This module
//! decides what an action's normal form asks for and how a result comes
//! back as a term; performing the effect is the runtime's part.
//!
//! Core actions: `शुद्ध(x)` yields x; `मुद्रण(s)` prints s and yields
//! `एकक`; `पठन` reads a line; `बन्ध(m, k)` runs m, then `k` applied to its
//! result. World actions: `सञ्चिकापाठ(p)` reads a file, `सञ्चिकालेख(p, s)`
//! writes one, `प्राचलाः` gives the program's arguments, `पर्यावरण(name)` an
//! environment variable, `काल` the Unix time in seconds, and
//! `यादृच्छिक(n)` a random integer in `[0, n)`.
use crate::ast::{lemma_terms_view, Term, TermV, terms_view};
use crate::builtins::{dosha, dosha_v, make_list, make_list_v};
use crate::pretty::{show, show_spec};
use crate::text::{push_str, str_eq};
use vstd::prelude::*;

verus! {

/// What an action asks the runtime to do.
pub enum Request {
    /// Yield this value, doing nothing.
    Yield(Term),
    /// Print this term (normalised first), then yield `एकक`.
    Print(Term),
    /// Read a line from the input.
    ReadLine,
    /// Run the first action, then the second applied to its result.
    Bind(Term, Term),
    /// Read the file at this path.
    ReadFile(String),
    /// Write the contents (second) to the file at the path (first).
    WriteFile(String, String),
    /// The program's command-line arguments.
    Args,
    /// The environment variable of this name.
    Env(String),
    /// The current Unix time in seconds.
    Time,
    /// A random integer in `[0, n)`, for this positive `n`.
    Random(i64),
}

pub enum RequestV {
    Yield(TermV),
    Print(TermV),
    ReadLine,
    Bind(TermV, TermV),
    ReadFile(Seq<char>),
    WriteFile(Seq<char>, Seq<char>),
    Args,
    Env(Seq<char>),
    Time,
    Random(int),
}

impl View for Request {
    type V = RequestV;

    open spec fn view(&self) -> RequestV {
        match self {
            Request::Yield(t) => RequestV::Yield(t@),
            Request::Print(t) => RequestV::Print(t@),
            Request::ReadLine => RequestV::ReadLine,
            Request::Bind(m, k) => RequestV::Bind(m@, k@),
            Request::ReadFile(p) => RequestV::ReadFile(p@),
            Request::WriteFile(p, s) => RequestV::WriteFile(p@, s@),
            Request::Args => RequestV::Args,
            Request::Env(n) => RequestV::Env(n@),
            Request::Time => RequestV::Time,
            Request::Random(n) => RequestV::Random(n as int),
        }
    }
}

/// Is `t` the symbol `name` applied to `n` arguments?
pub open spec fn is_call(t: TermV, name: Seq<char>, n: nat) -> bool {
    t matches TermV::Sym(f, args) && f == name && args.len() == n
}

/// The arguments of a symbol application.
pub open spec fn call_args(t: TermV) -> Seq<TermV> {
    match t {
        TermV::Sym(_, args) => args,
        _ => Seq::empty(),
    }
}

/// What the normal form of an action asks for. A malformed world action
/// yields a `दोष`; a term that is no action yields itself.
pub open spec fn request_spec(t: TermV) -> RequestV {
    let a = call_args(t);
    if is_call(t, "शुद्ध"@, 1) {
        RequestV::Yield(a[0])
    } else if is_call(t, "मुद्रण"@, 1) {
        RequestV::Print(a[0])
    } else if is_call(t, "पठन"@, 0) {
        RequestV::ReadLine
    } else if is_call(t, "बन्ध"@, 2) {
        RequestV::Bind(a[0], a[1])
    } else if is_call(t, "सञ्चिकापाठ"@, 1) {
        match a[0] {
            TermV::Str(p) => RequestV::ReadFile(p),
            _ => RequestV::Yield(dosha_v("सञ्चिकापाठ: path must be a string"@)),
        }
    } else if is_call(t, "सञ्चिकालेख"@, 2) {
        match (a[0], a[1]) {
            (TermV::Str(p), TermV::Str(s)) => RequestV::WriteFile(p, s),
            _ => RequestV::Yield(dosha_v("सञ्चिकालेख: expects (path, contents) strings"@)),
        }
    } else if is_call(t, "प्राचलाः"@, 0) {
        RequestV::Args
    } else if is_call(t, "पर्यावरण"@, 1) {
        match a[0] {
            TermV::Str(n) => RequestV::Env(n),
            _ => RequestV::Yield(dosha_v("पर्यावरण: name must be a string"@)),
        }
    } else if is_call(t, "काल"@, 0) {
        RequestV::Time
    } else if is_call(t, "यादृच्छिक"@, 1) {
        match a[0] {
            TermV::Int(m) => if m > 0 {
                RequestV::Random(m)
            } else {
                RequestV::Yield(dosha_v("यादृच्छिक: argument must be a positive integer"@))
            },
            _ => RequestV::Yield(dosha_v("यादृच्छिक: argument must be a positive integer"@)),
        }
    } else {
        RequestV::Yield(t)
    }
}

/// Is `t` the symbol `name` applied to `n` arguments?
fn is_call_exec(t: &Term, name: &str, n: usize) -> (r: bool)
    ensures
        r == is_call(t@, name@, n as nat),
{
    match t {
        Term::Sym(f, args) => {
            proof {
                lemma_terms_view(args@);
            }
            str_eq(f.as_str(), name) && args.len() == n
        },
        _ => false,
    }
}

/// What the normal form of an action asks the runtime to do.
pub fn request_of(nf: &Term) -> (r: Request)
    ensures
        r@ == request_spec(nf@),
{
    let args = match nf {
        Term::Sym(_, args) => args,
        _ => {
            return Request::Yield(nf.clone());
        },
    };
    proof {
        lemma_terms_view(args@);
    }
    if is_call_exec(nf, "शुद्ध", 1) {
        Request::Yield(args[0].clone())
    } else if is_call_exec(nf, "मुद्रण", 1) {
        Request::Print(args[0].clone())
    } else if is_call_exec(nf, "पठन", 0) {
        Request::ReadLine
    } else if is_call_exec(nf, "बन्ध", 2) {
        Request::Bind(args[0].clone(), args[1].clone())
    } else if is_call_exec(nf, "सञ्चिकापाठ", 1) {
        match &args[0] {
            Term::Str(p) => Request::ReadFile(p.clone()),
            _ => Request::Yield(dosha("सञ्चिकापाठ: path must be a string")),
        }
    } else if is_call_exec(nf, "सञ्चिकालेख", 2) {
        match (&args[0], &args[1]) {
            (Term::Str(p), Term::Str(s)) => Request::WriteFile(p.clone(), s.clone()),
            _ => Request::Yield(dosha("सञ्चिकालेख: expects (path, contents) strings")),
        }
    } else if is_call_exec(nf, "प्राचलाः", 0) {
        Request::Args
    } else if is_call_exec(nf, "पर्यावरण", 1) {
        match &args[0] {
            Term::Str(n) => Request::Env(n.clone()),
            _ => Request::Yield(dosha("पर्यावरण: name must be a string")),
        }
    } else if is_call_exec(nf, "काल", 0) {
        Request::Time
    } else if is_call_exec(nf, "यादृच्छिक", 1) {
        match &args[0] {
            Term::Int(m) => if *m > 0 {
                Request::Random(*m)
            } else {
                Request::Yield(dosha("यादृच्छिक: argument must be a positive integer"))
            },
            _ => Request::Yield(dosha("यादृच्छिक: argument must be a positive integer")),
        }
    } else {
        Request::Yield(nf.clone())
    }
}

/// The action that continues a `बन्ध`: its continuation applied to the
/// result of the first action.
pub fn continue_with(k: Term, result: Term) -> (t: Term)
    ensures
        t@ == TermV::App(Box::new(k@), seq![result@]),
{
    let ghost rv = result@;
    let args = vec![result];
    proof {
        lemma_terms_view(args@);
        assert(terms_view(args@) =~= seq![rv]);
    }
    Term::App(Box::new(k), args)
}

/// `एकक`, the value of an action done for its effect.
pub fn unit() -> (t: Term)
    ensures
        t@ == TermV::Sym("एकक"@, Seq::empty()),
{
    Term::con("एकक")
}

/// How `मुद्रण` prints a normal form: a string as it is, anything else as
/// the printer shows it.
pub open spec fn printed_spec(t: TermV, ascii: bool) -> Seq<char> {
    match t {
        TermV::Str(s) => s,
        _ => show_spec(t, ascii),
    }
}

/// The text `मुद्रण` prints for a normal form.
pub fn printed(nf: &Term, ascii: bool) -> (r: String)
    ensures
        r@ == printed_spec(nf@, ascii),
{
    match nf {
        Term::Str(s) => s.clone(),
        _ => show(nf, ascii),
    }
}

/// A line as `पठन` yields it: without its trailing line breaks.
pub open spec fn line_spec(raw: Seq<char>) -> Seq<char>
    decreases raw.len(),
{
    if raw.len() > 0 && (raw.last() == '\n' || raw.last() == '\r') {
        line_spec(raw.drop_last())
    } else {
        raw
    }
}

/// The value `पठन` yields for a line read.
pub fn line_value(raw: &str) -> (t: Term)
    ensures
        t@ == TermV::Str(line_spec(raw@)),
{
    let chars = crate::text::chars_of(raw);
    let mut end: usize = chars.len();
    proof {
        assert(raw@.take(end as int) =~= raw@);
    }
    while end > 0 && (chars[end - 1] == '\n' || chars[end - 1] == '\r')
        invariant
            end <= chars.len(),
            chars@ == raw@,
            line_spec(raw@) == line_spec(raw@.take(end as int)),
        decreases end,
    {
        proof {
            assert(raw@.take(end as int).drop_last() =~= raw@.take(end - 1));
        }
        end = end - 1;
    }
    let mut out = String::new();
    let mut i: usize = 0;
    proof {
        assert(out@ =~= raw@.take(0));
    }
    while i < end
        invariant
            i <= end <= chars.len(),
            chars@ == raw@,
            out@ == raw@.take(i as int),
        decreases end - i,
    {
        crate::text::push_char(&mut out, chars[i]);
        proof {
            assert(raw@.take(i + 1) =~= raw@.take(i as int).push(chars@[i as int]));
        }
        i = i + 1;
    }
    Term::Str(out)
}

/// The program's arguments as a list of strings.
pub open spec fn args_spec(args: Seq<Seq<char>>) -> TermV {
    make_list_v(args.map_values(|a: Seq<char>| TermV::Str(a)))
}

/// The value of `प्राचलाः`.
pub fn args_value(args: &Vec<String>) -> (t: Term)
    ensures
        t@ == args_spec(args@.map_values(|a: String| a@)),
{
    let mut items: Vec<Term> = Vec::new();
    let mut i: usize = 0;
    while i < args.len()
        invariant
            i <= args.len(),
            items.len() == i,
            forall|j: int| 0 <= j < i ==> (#[trigger] items@[j])@ == TermV::Str(args@[j]@),
        decreases args.len() - i,
    {
        items.push(Term::Str(args[i].clone()));
        i = i + 1;
    }
    proof {
        lemma_terms_view(items@);
        assert(terms_view(items@) =~= args@.map_values(|a: String| a@).map_values(
            |a: Seq<char>| TermV::Str(a),
        ));
    }
    make_list(items)
}

/// An effect that failed, with what went wrong: `दोष("effect: detail")`.
pub open spec fn failure_spec(effect: Seq<char>, detail: Seq<char>) -> TermV {
    dosha_v(effect + ": "@ + detail)
}

/// The value of a world action that failed.
pub fn failure(effect: &str, detail: &str) -> (t: Term)
    ensures
        t@ == failure_spec(effect@, detail@),
{
    let mut msg = String::new();
    push_str(&mut msg, effect);
    push_str(&mut msg, ": ");
    push_str(&mut msg, detail);
    dosha(msg.as_str())
}

/// The value of `पर्यावरण(name)` when the variable is not set.
pub open spec fn env_missing_spec(name: Seq<char>) -> TermV {
    dosha_v("पर्यावरण: "@ + name + " अनुपलब्ध"@)
}

/// The value of `पर्यावरण(name)` when the variable is not set.
pub fn env_missing(name: &str) -> (t: Term)
    ensures
        t@ == env_missing_spec(name@),
{
    let mut msg = String::new();
    push_str(&mut msg, "पर्यावरण: ");
    push_str(&mut msg, name);
    push_str(&mut msg, " अनुपलब्ध");
    dosha(msg.as_str())
}

/// One step of the xorshift64 generator.
pub open spec fn xorshift_spec(x: u64) -> u64 {
    let a = x ^ (x << 13u64);
    let b = a ^ (a >> 7u64);
    b ^ (b << 17u64)
}

/// The next state of the random generator.
pub fn xorshift(x: u64) -> (r: u64)
    ensures
        r == xorshift_spec(x),
{
    let a = x ^ (x << 13u64);
    let b = a ^ (a >> 7u64);
    b ^ (b << 17u64)
}

/// `यादृच्छिक(n)` from the generator's output: the output modulo `n`.
pub fn random_below(r: u64, n: i64) -> (t: Term)
    requires
        n > 0,
    ensures
        t@ == TermV::Int((r as int) % (n as int)),
{
    let m = n as u64;
    let v = r % m;
    Term::Int(v as i64)
}

/// A pure action yields its value, and a term that is no action yields
/// itself.
pub proof fn lemma_pure_and_plain_values(x: TermV, t: TermV)
    requires
        !(t is Sym),
    ensures
        request_spec(TermV::Sym("शुद्ध"@, seq![x])) == RequestV::Yield(x),
        request_spec(t) == RequestV::Yield(t),
{
}

} // verus!
