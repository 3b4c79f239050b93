//! Abstract syntax: terms, rewrite rules, saṃjñās and whole programs.
//!
//! Every executable type has a mathematical view (`TermV`, `RuleV`, …) over
//! sequences and integers; the contracts of the checker, the classifier and
//! the printer are stated over those views.
use crate::bigint::BigInt;
use crate::krama::{classes_view, systems_view, Class, ClassV, SeqSystem, SeqSystemV};
use crate::sivasutra::{inventory_view, SivaSutra, SivaSutraV};
use crate::text::str_eq;
use vstd::prelude::*;
use vstd::std_specs::cmp::PartialEqSpecImpl;

verus! {

/// 2⁵², the weight of the lowest exponent bit of an IEEE-754 double.
pub open spec fn mantissa_span() -> int {
    0x10_0000_0000_0000
}

/// The biased exponent field of a double's bits.
pub open spec fn exponent_field(bits: u64) -> int {
    (bits as int / mantissa_span()) % 2048
}

/// The fraction field of a double's bits.
pub open spec fn fraction_field(bits: u64) -> int {
    bits as int % mantissa_span()
}

/// Is the double with these bits a NaN?
pub open spec fn is_nan_bits(bits: u64) -> bool {
    exponent_field(bits) == 2047 && fraction_field(bits) != 0
}

/// Is the double with these bits finite (neither infinite nor NaN)?
pub open spec fn is_finite_bits(bits: u64) -> bool {
    exponent_field(bits) != 2047
}

/// Is the double with these bits a zero of either sign?
pub open spec fn is_zero_bits(bits: u64) -> bool {
    bits as int % 0x8000_0000_0000_0000 == 0
}

/// IEEE-754 equality of two doubles given by their bits: NaN equals
/// nothing, the two zeros are equal, otherwise equal bits.
pub open spec fn float_bits_eq(a: u64, b: u64) -> bool {
    !is_nan_bits(a) && !is_nan_bits(b) && (a == b || (is_zero_bits(a) && is_zero_bits(b)))
}

/// A floating-point literal: its IEEE-754 bits and its shortest decimal
/// spelling (as `{}` prints a double).
#[derive(Debug)]
pub struct FloatLit {
    pub bits: u64,
    pub text: String,
}

impl FloatLit {
    /// Is the value finite (neither infinite nor NaN)?
    pub fn is_finite(&self) -> (r: bool)
        ensures
            r == is_finite_bits(self.bits),
    {
        (self.bits / 0x10_0000_0000_0000) % 2048 != 2047
    }

    /// A copy with the same bits and spelling.
    pub fn copy(&self) -> (r: FloatLit)
        ensures
            r.bits == self.bits,
            r.text@ == self.text@,
    {
        FloatLit { bits: self.bits, text: self.text.clone() }
    }
}

impl Clone for FloatLit {
    fn clone(&self) -> (r: FloatLit)
        ensures
            r.bits == self.bits,
            r.text@ == self.text@,
    {
        self.copy()
    }
}

impl PartialEq for FloatLit {
    fn eq(&self, other: &FloatLit) -> (r: bool) {
        let a = self.bits;
        let b = other.bits;
        let a_nan = (a / 0x10_0000_0000_0000) % 2048 == 2047 && a % 0x10_0000_0000_0000 != 0;
        let b_nan = (b / 0x10_0000_0000_0000) % 2048 == 2047 && b % 0x10_0000_0000_0000 != 0;
        let both_zero = a % 0x8000_0000_0000_0000 == 0 && b % 0x8000_0000_0000_0000 == 0;
        !a_nan && !b_nan && (a == b || both_zero)
    }
}

impl PartialEqSpecImpl for FloatLit {
    open spec fn obeys_eq_spec() -> bool {
        true
    }

    open spec fn eq_spec(&self, other: &FloatLit) -> bool {
        float_bits_eq(self.bits, other.bits)
    }
}

/// A term: the single syntactic category of the language.
#[derive(Debug)]
pub enum Term {
    /// A pattern variable, written `?name`.
    Var(String),
    /// A native integer that fits in 64 bits.
    Int(i64),
    /// A native integer beyond 64 bits.
    Big(BigInt),
    /// A native floating-point number.
    Float(FloatLit),
    /// A native string.
    Str(String),
    /// A symbol applied to zero or more arguments; nullary symbols are
    /// constants and constructors.
    Sym(String, Vec<Term>),
    /// An anonymous function: `(params) => body`.
    Lam(Vec<String>, Box<Term>),
    /// Application of a function value to arguments.
    App(Box<Term>, Vec<Term>),
    /// A native map, as key/value entries.
    Kosha(Vec<(Term, Term)>),
}

/// The mathematical shape of a term.
pub enum TermV {
    Var(Seq<char>),
    Int(int),
    Big(int),
    Float(u64, Seq<char>),
    Str(Seq<char>),
    Sym(Seq<char>, Seq<TermV>),
    Lam(Seq<Seq<char>>, Box<TermV>),
    App(Box<TermV>, Seq<TermV>),
    Kosha(Seq<(TermV, TermV)>),
}

/// The view of each string in a sequence.
pub open spec fn names_view(ns: Seq<String>) -> Seq<Seq<char>> {
    ns.map_values(|s: String| s@)
}

/// The view of a term.
pub open spec fn term_view(t: Term) -> TermV
    decreases t,
{
    match t {
        Term::Var(v) => TermV::Var(v@),
        Term::Int(n) => TermV::Int(n as int),
        Term::Big(b) => TermV::Big(b@),
        Term::Float(f) => TermV::Float(f.bits, f.text@),
        Term::Str(s) => TermV::Str(s@),
        Term::Sym(n, args) => TermV::Sym(n@, terms_view(args@)),
        Term::Lam(ps, body) => TermV::Lam(names_view(ps@), Box::new(term_view(*body))),
        Term::App(f, args) => TermV::App(Box::new(term_view(*f)), terms_view(args@)),
        Term::Kosha(es) => TermV::Kosha(entries_view(es@)),
    }
}

/// The views of a sequence of terms.
pub open spec fn terms_view(ts: Seq<Term>) -> Seq<TermV>
    decreases ts,
{
    if ts.len() == 0 {
        Seq::empty()
    } else {
        terms_view(ts.drop_last()).push(term_view(ts.last()))
    }
}

/// The views of a sequence of map entries.
pub open spec fn entries_view(es: Seq<(Term, Term)>) -> Seq<(TermV, TermV)>
    decreases es,
{
    if es.len() == 0 {
        Seq::empty()
    } else {
        entries_view(es.drop_last()).push((term_view(es.last().0), term_view(es.last().1)))
    }
}

impl View for Term {
    type V = TermV;

    open spec fn view(&self) -> TermV {
        term_view(*self)
    }
}

/// `terms_view` keeps the length and views element by element.
pub proof fn lemma_terms_view(ts: Seq<Term>)
    ensures
        terms_view(ts).len() == ts.len(),
        forall|i: int| 0 <= i < ts.len() ==> #[trigger] terms_view(ts)[i] == ts[i]@,
    decreases ts.len(),
{
    if ts.len() > 0 {
        lemma_terms_view(ts.drop_last());
    }
}

/// `entries_view` keeps the length and views entry by entry.
pub proof fn lemma_entries_view(es: Seq<(Term, Term)>)
    ensures
        entries_view(es).len() == es.len(),
        forall|i: int|
            0 <= i < es.len() ==> #[trigger] entries_view(es)[i] == (es[i].0@, es[i].1@),
    decreases es.len(),
{
    if es.len() > 0 {
        lemma_entries_view(es.drop_last());
    }
}

impl Term {
    /// The nullary symbol `name`: a constant or constructor.
    pub fn con(name: &str) -> (t: Term)
        ensures
            t@ == TermV::Sym(name@, Seq::empty()),
    {
        let args: Vec<Term> = Vec::new();
        proof {
            assert(terms_view(args@) =~= Seq::<TermV>::empty());
        }
        Term::Sym(name.to_owned(), args)
    }

    /// The symbol `name` applied to `args`.
    pub fn app(name: &str, args: Vec<Term>) -> (t: Term)
        ensures
            t@ == TermV::Sym(name@, terms_view(args@)),
    {
        Term::Sym(name.to_owned(), args)
    }

    /// Is this term a native integer, float or string literal? (A
    /// fully evaluated value with no redex at the root.)
    pub fn is_value_atom(&self) -> (r: bool)
        ensures
            r == (self is Int || self is Float || self is Str),
    {
        match self {
            Term::Int(_) | Term::Float(_) | Term::Str(_) => true,
            _ => false,
        }
    }
}


/// Structural equality of terms, comparing floats as IEEE-754 doubles.
pub open spec fn term_equal(a: TermV, b: TermV) -> bool
    decreases a,
{
    match a {
        TermV::Var(x) => b == TermV::Var(x),
        TermV::Int(x) => b == TermV::Int(x),
        TermV::Big(x) => b == TermV::Big(x),
        TermV::Float(x, _) => match b {
            TermV::Float(y, _) => float_bits_eq(x, y),
            _ => false,
        },
        TermV::Str(x) => b == TermV::Str(x),
        TermV::Sym(n, xs) => match b {
            TermV::Sym(m, ys) => n == m && terms_equal(xs, ys),
            _ => false,
        },
        TermV::Lam(ps, body) => match b {
            TermV::Lam(qs, body2) => ps == qs && term_equal(*body, *body2),
            _ => false,
        },
        TermV::App(f, xs) => match b {
            TermV::App(g, ys) => term_equal(*f, *g) && terms_equal(xs, ys),
            _ => false,
        },
        TermV::Kosha(es) => match b {
            TermV::Kosha(fs) => entries_equal(es, fs),
            _ => false,
        },
    }
}

/// Element-wise `term_equal` of two sequences of the same length.
pub open spec fn terms_equal(xs: Seq<TermV>, ys: Seq<TermV>) -> bool
    decreases xs,
{
    if xs.len() != ys.len() {
        false
    } else if xs.len() == 0 {
        true
    } else {
        terms_equal(xs.drop_last(), ys.drop_last()) && term_equal(xs.last(), ys.last())
    }
}

/// Entry-wise `term_equal` of two sequences of map entries.
pub open spec fn entries_equal(es: Seq<(TermV, TermV)>, fs: Seq<(TermV, TermV)>) -> bool
    decreases es,
{
    if es.len() != fs.len() {
        false
    } else if es.len() == 0 {
        true
    } else {
        &&& entries_equal(es.drop_last(), fs.drop_last())
        &&& term_equal(es.last().0, fs.last().0)
        &&& term_equal(es.last().1, fs.last().1)
    }
}

/// `terms_equal` is element-wise equality.
pub proof fn lemma_terms_equal(xs: Seq<TermV>, ys: Seq<TermV>)
    ensures
        terms_equal(xs, ys) <==> (xs.len() == ys.len() && forall|i: int|
            0 <= i < xs.len() ==> #[trigger] term_equal(xs[i], ys[i])),
    decreases xs.len(),
{
    if xs.len() == ys.len() && xs.len() > 0 {
        let n = xs.len() - 1;
        lemma_terms_equal(xs.drop_last(), ys.drop_last());
        assert(xs.last() == xs[n] && ys.last() == ys[n]);
        if forall|i: int| 0 <= i < xs.len() ==> #[trigger] term_equal(xs[i], ys[i]) {
            assert forall|i: int| 0 <= i < n implies #[trigger] term_equal(
                xs.drop_last()[i],
                ys.drop_last()[i],
            ) by {
                assert(term_equal(xs[i], ys[i]));
            }
            assert(term_equal(xs[n], ys[n]));
        }
        if terms_equal(xs, ys) {
            assert forall|i: int| 0 <= i < xs.len() implies #[trigger] term_equal(xs[i], ys[i]) by {
                if i < n {
                    assert(term_equal(xs.drop_last()[i], ys.drop_last()[i]));
                }
            }
        }
    }
}

/// Two map entries are equal key to key and value to value.
pub open spec fn entry_equal(e: (TermV, TermV), f: (TermV, TermV)) -> bool {
    term_equal(e.0, f.0) && term_equal(e.1, f.1)
}

/// `entries_equal` is entry-wise equality.
pub proof fn lemma_entries_equal(es: Seq<(TermV, TermV)>, fs: Seq<(TermV, TermV)>)
    ensures
        entries_equal(es, fs) <==> (es.len() == fs.len() && forall|i: int|
            0 <= i < es.len() ==> #[trigger] entry_equal(es[i], fs[i])),
    decreases es.len(),
{
    if es.len() == fs.len() && es.len() > 0 {
        let n = es.len() - 1;
        lemma_entries_equal(es.drop_last(), fs.drop_last());
        assert(es.last() == es[n] && fs.last() == fs[n]);
        if forall|i: int| 0 <= i < es.len() ==> #[trigger] entry_equal(es[i], fs[i]) {
            assert forall|i: int| 0 <= i < n implies #[trigger] entry_equal(
                es.drop_last()[i],
                fs.drop_last()[i],
            ) by {
                assert(entry_equal(es[i], fs[i]));
            }
            assert(entry_equal(es[n], fs[n]));
        }
        if entries_equal(es, fs) {
            assert forall|i: int| 0 <= i < es.len() implies #[trigger] entry_equal(es[i], fs[i]) by {
                if i < n {
                    assert(entry_equal(es.drop_last()[i], fs.drop_last()[i]));
                }
            }
        }
    }
}

/// Are two name lists the same, name by name?
fn names_equal(a: &Vec<String>, b: &Vec<String>) -> (r: bool)
    ensures
        r == (names_view(a@) == names_view(b@)),
{
    if a.len() != b.len() {
        proof {
            assert(names_view(a@).len() != names_view(b@).len());
        }
        return false;
    }
    let mut i: usize = 0;
    while i < a.len()
        invariant
            a.len() == b.len(),
            i <= a.len(),
            forall|j: int| 0 <= j < i ==> a@[j]@ == b@[j]@,
        decreases a.len() - i,
    {
        if !str_eq(a[i].as_str(), b[i].as_str()) {
            proof {
                assert(names_view(a@)[i as int] != names_view(b@)[i as int]);
            }
            return false;
        }
        i = i + 1;
    }
    proof {
        assert(names_view(a@) =~= names_view(b@));
    }
    true
}

/// Structural equality of two terms; floats compare as IEEE-754 doubles.
pub fn term_eq(a: &Term, b: &Term) -> (r: bool)
    ensures
        r == term_equal(a@, b@),
    decreases a,
{
    match a {
        Term::Var(x) => match b {
            Term::Var(y) => str_eq(x.as_str(), y.as_str()),
            _ => false,
        },
        Term::Int(x) => match b {
            Term::Int(y) => *x == *y,
            _ => false,
        },
        Term::Big(x) => match b {
            Term::Big(y) => x.eq(y),
            _ => false,
        },
        Term::Float(x) => match b {
            Term::Float(y) => x.eq(y),
            _ => false,
        },
        Term::Str(x) => match b {
            Term::Str(y) => str_eq(x.as_str(), y.as_str()),
            _ => false,
        },
        Term::Sym(n, xs) => match b {
            Term::Sym(m, ys) => str_eq(n.as_str(), m.as_str()) && terms_eq(xs, ys),
            _ => false,
        },
        Term::Lam(ps, body) => match b {
            Term::Lam(qs, body2) => names_equal(ps, qs) && term_eq(body, body2),
            _ => false,
        },
        Term::App(f, xs) => match b {
            Term::App(g, ys) => term_eq(f, g) && terms_eq(xs, ys),
            _ => false,
        },
        Term::Kosha(es) => match b {
            Term::Kosha(fs) => entries_eq(es, fs),
            _ => false,
        },
    }
}

/// Element-wise `term_eq`.
fn terms_eq(xs: &Vec<Term>, ys: &Vec<Term>) -> (r: bool)
    ensures
        r == terms_equal(terms_view(xs@), terms_view(ys@)),
    decreases xs,
{
    proof {
        lemma_terms_view(xs@);
        lemma_terms_view(ys@);
        lemma_terms_equal(terms_view(xs@), terms_view(ys@));
    }
    if xs.len() != ys.len() {
        return false;
    }
    let mut i: usize = 0;
    while i < xs.len()
        invariant
            xs.len() == ys.len(),
            i <= xs.len(),
            terms_view(xs@).len() == xs.len(),
            terms_view(ys@).len() == ys.len(),
            forall|j: int| 0 <= j < xs.len() ==> #[trigger] terms_view(xs@)[j] == xs@[j]@,
            forall|j: int| 0 <= j < ys.len() ==> #[trigger] terms_view(ys@)[j] == ys@[j]@,
            forall|j: int| 0 <= j < i ==> term_equal(#[trigger] terms_view(xs@)[j], terms_view(ys@)[j]),
        decreases xs.len() - i,
    {
        if !term_eq(&xs[i], &ys[i]) {
            proof {
                assert(!term_equal(terms_view(xs@)[i as int], terms_view(ys@)[i as int]));
                lemma_terms_equal(terms_view(xs@), terms_view(ys@));
            }
            return false;
        }
        i = i + 1;
    }
    true
}

/// Entry-wise `term_eq`.
fn entries_eq(es: &Vec<(Term, Term)>, fs: &Vec<(Term, Term)>) -> (r: bool)
    ensures
        r == entries_equal(entries_view(es@), entries_view(fs@)),
    decreases es,
{
    proof {
        lemma_entries_view(es@);
        lemma_entries_view(fs@);
        lemma_entries_equal(entries_view(es@), entries_view(fs@));
    }
    if es.len() != fs.len() {
        return false;
    }
    let mut i: usize = 0;
    while i < es.len()
        invariant
            es.len() == fs.len(),
            i <= es.len(),
            entries_view(es@).len() == es.len(),
            entries_view(fs@).len() == fs.len(),
            forall|j: int|
                0 <= j < es.len() ==> #[trigger] entries_view(es@)[j] == (es@[j].0@, es@[j].1@),
            forall|j: int|
                0 <= j < fs.len() ==> #[trigger] entries_view(fs@)[j] == (fs@[j].0@, fs@[j].1@),
            forall|j: int|
                0 <= j < i ==> entry_equal(#[trigger] entries_view(es@)[j], entries_view(fs@)[j]),
        decreases es.len() - i,
    {
        let same = term_eq(&es[i].0, &fs[i].0) && term_eq(&es[i].1, &fs[i].1);
        if !same {
            proof {
                assert(!entry_equal(entries_view(es@)[i as int], entries_view(fs@)[i as int]));
                lemma_entries_equal(entries_view(es@), entries_view(fs@));
            }
            return false;
        }
        i = i + 1;
    }
    true
}

/// A copy of a term with the same view.
pub fn clone_term(t: &Term) -> (r: Term)
    ensures
        r@ == t@,
    decreases t,
{
    match t {
        Term::Var(v) => Term::Var(v.clone()),
        Term::Int(n) => Term::Int(*n),
        Term::Big(b) => Term::Big(b.clone()),
        Term::Float(f) => Term::Float(f.copy()),
        Term::Str(s) => Term::Str(s.clone()),
        Term::Sym(n, args) => {
            let args2 = clone_terms(args);
            Term::Sym(n.clone(), args2)
        },
        Term::Lam(ps, body) => {
            let ps2 = clone_names(ps);
            let body2 = clone_term(body);
            Term::Lam(ps2, Box::new(body2))
        },
        Term::App(f, args) => {
            let f2 = clone_term(f);
            let args2 = clone_terms(args);
            Term::App(Box::new(f2), args2)
        },
        Term::Kosha(es) => Term::Kosha(clone_entries(es)),
    }
}

/// A copy of a list of names.
pub fn clone_names(ns: &Vec<String>) -> (r: Vec<String>)
    ensures
        names_view(r@) == names_view(ns@),
{
    let mut out: Vec<String> = Vec::new();
    let mut i: usize = 0;
    while i < ns.len()
        invariant
            i <= ns.len(),
            out.len() == i,
            forall|j: int| 0 <= j < i ==> out@[j]@ == ns@[j]@,
        decreases ns.len() - i,
    {
        out.push(ns[i].clone());
        i = i + 1;
    }
    proof {
        assert(names_view(out@) =~= names_view(ns@));
    }
    out
}

/// Copies of a list of terms.
pub fn clone_terms(ts: &Vec<Term>) -> (r: Vec<Term>)
    ensures
        terms_view(r@) == terms_view(ts@),
    decreases ts,
{
    let mut out: Vec<Term> = Vec::new();
    let mut i: usize = 0;
    while i < ts.len()
        invariant
            i <= ts.len(),
            out.len() == i,
            forall|j: int| 0 <= j < i ==> (#[trigger] out@[j])@ == ts@[j]@,
        decreases ts.len() - i,
    {
        let c = clone_term(&ts[i]);
        out.push(c);
        i = i + 1;
    }
    proof {
        lemma_terms_view(out@);
        lemma_terms_view(ts@);
        assert(terms_view(out@) =~= terms_view(ts@));
    }
    out
}

/// Copies of a list of map entries.
fn clone_entries(es: &Vec<(Term, Term)>) -> (r: Vec<(Term, Term)>)
    ensures
        entries_view(r@) == entries_view(es@),
    decreases es,
{
    let mut out: Vec<(Term, Term)> = Vec::new();
    let mut i: usize = 0;
    while i < es.len()
        invariant
            i <= es.len(),
            out.len() == i,
            forall|j: int|
                0 <= j < i ==> (#[trigger] out@[j]).0@ == es@[j].0@ && out@[j].1@ == es@[j].1@,
        decreases es.len() - i,
    {
        let k = clone_term(&es[i].0);
        let v = clone_term(&es[i].1);
        out.push((k, v));
        i = i + 1;
    }
    proof {
        lemma_entries_view(out@);
        lemma_entries_view(es@);
        assert(entries_view(out@) =~= entries_view(es@));
    }
    out
}

impl Clone for Term {
    fn clone(&self) -> (r: Term)
        ensures
            r@ == self@,
    {
        clone_term(self)
    }
}

impl PartialEq for Term {
    fn eq(&self, other: &Term) -> (r: bool) {
        term_eq(self, other)
    }
}

impl PartialEqSpecImpl for Term {
    open spec fn obeys_eq_spec() -> bool {
        true
    }

    open spec fn eq_spec(&self, other: &Term) -> bool {
        term_equal(self@, other@)
    }
}

/// A rewrite rule (सूत्र): `lhs | guard -> rhs`.
#[derive(Debug)]
pub struct Rule {
    pub lhs: Term,
    /// An optional condition the match must satisfy.
    pub guard: Option<Term>,
    pub rhs: Term,
    /// Source order: the later-declared rule wins (paratva).
    pub order: usize,
}

pub struct RuleV {
    pub lhs: TermV,
    pub guard: Option<TermV>,
    pub rhs: TermV,
    pub order: nat,
}

/// The view of an optional term.
pub open spec fn opt_term_view(t: Option<Term>) -> Option<TermV> {
    match t {
        Some(g) => Some(g@),
        None => None,
    }
}

impl View for Rule {
    type V = RuleV;

    open spec fn view(&self) -> RuleV {
        RuleV { lhs: self.lhs@, guard: opt_term_view(self.guard), rhs: self.rhs@, order: self.order as nat }
    }
}

/// A saṃjñā (संज्ञा): a named class of terms, `name(params) := alt | alt …`.
#[derive(Debug)]
pub struct Samjna {
    pub name: String,
    pub params: Vec<String>,
    pub alts: Vec<Term>,
}

pub struct SamjnaV {
    pub name: Seq<char>,
    pub params: Seq<Seq<char>>,
    pub alts: Seq<TermV>,
}

impl View for Samjna {
    type V = SamjnaV;

    open spec fn view(&self) -> SamjnaV {
        SamjnaV { name: self.name@, params: names_view(self.params@), alts: terms_view(self.alts@) }
    }
}

/// A whole program.
#[derive(Debug)]
pub struct Program {
    pub rules: Vec<Rule>,
    pub samjnas: Vec<Samjna>,
    /// `प्रयोग EXPR।` declarations: expressions to evaluate and print.
    pub prayogas: Vec<Term>,
    /// Imported file paths, resolved by the loader.
    pub imports: Vec<String>,
    /// Sequence systems (क्रम).
    pub seq: Vec<SeqSystem>,
    /// Element classes (गण).
    pub classes: Vec<Class>,
    /// The śivasūtra inventory that pratyāhāras are derived from.
    pub inventory: Vec<SivaSutra>,
}

pub struct ProgramV {
    pub rules: Seq<RuleV>,
    pub samjnas: Seq<SamjnaV>,
    pub prayogas: Seq<TermV>,
    pub imports: Seq<Seq<char>>,
    pub seq: Seq<SeqSystemV>,
    pub classes: Seq<ClassV>,
    pub inventory: Seq<SivaSutraV>,
}

/// The views of a sequence of rules.
pub open spec fn rules_view(rs: Seq<Rule>) -> Seq<RuleV> {
    rs.map_values(|r: Rule| r@)
}

/// The views of a sequence of saṃjñās.
pub open spec fn samjnas_view(ss: Seq<Samjna>) -> Seq<SamjnaV> {
    ss.map_values(|s: Samjna| s@)
}

impl View for Program {
    type V = ProgramV;

    open spec fn view(&self) -> ProgramV {
        ProgramV {
            rules: rules_view(self.rules@),
            samjnas: samjnas_view(self.samjnas@),
            prayogas: terms_view(self.prayogas@),
            imports: names_view(self.imports@),
            seq: systems_view(self.seq@),
            classes: classes_view(self.classes@),
            inventory: inventory_view(self.inventory@),
        }
    }
}

/// Rules renumbered to come after `base` earlier ones.
pub open spec fn shift_rules(rs: Seq<RuleV>, base: nat) -> Seq<RuleV> {
    rs.map_values(|r: RuleV| RuleV { lhs: r.lhs, guard: r.guard, rhs: r.rhs, order: r.order + base })
}

/// The first saṃjñā named `name`.
pub open spec fn find_samjna(ss: Seq<SamjnaV>, name: Seq<char>) -> Option<SamjnaV>
    decreases ss.len(),
{
    if ss.len() == 0 {
        None
    } else if ss[0].name == name {
        Some(ss[0])
    } else {
        find_samjna(ss.drop_first(), name)
    }
}

/// Is this the rule for `मुख्य` (main): a nullary `मुख्य` on the left?
pub open spec fn is_main_rule(r: RuleV) -> bool {
    &&& r.lhs matches TermV::Sym(n, args)
    &&& n == "मुख्य"@
    &&& args.len() == 0
}

/// The right-hand side of the last-declared main rule.
pub open spec fn last_main(rs: Seq<RuleV>) -> Option<TermV>
    decreases rs.len(),
{
    if rs.len() == 0 {
        None
    } else if is_main_rule(rs.last()) {
        Some(rs.last().rhs)
    } else {
        last_main(rs.drop_last())
    }
}

impl Clone for Rule {
    fn clone(&self) -> (r: Rule)
        ensures
            r@ == self@,
    {
        let guard = match &self.guard {
            Some(g) => Some(clone_term(g)),
            None => None,
        };
        Rule { lhs: clone_term(&self.lhs), guard, rhs: clone_term(&self.rhs), order: self.order }
    }
}

impl Clone for Samjna {
    fn clone(&self) -> (r: Samjna)
        ensures
            r@ == self@,
    {
        Samjna { name: self.name.clone(), params: clone_names(&self.params), alts: clone_terms(&self.alts) }
    }
}

impl Clone for Program {
    fn clone(&self) -> (r: Program)
        ensures
            r@ == self@,
    {
        let mut rules: Vec<Rule> = Vec::new();
        let mut i: usize = 0;
        while i < self.rules.len()
            invariant
                i <= self.rules.len(),
                rules.len() == i,
                forall|j: int| 0 <= j < i ==> (#[trigger] rules@[j])@ == self.rules@[j]@,
            decreases self.rules.len() - i,
        {
            rules.push(self.rules[i].clone());
            i = i + 1;
        }
        let mut samjnas: Vec<Samjna> = Vec::new();
        let mut k: usize = 0;
        while k < self.samjnas.len()
            invariant
                k <= self.samjnas.len(),
                samjnas.len() == k,
                forall|j: int| 0 <= j < k ==> (#[trigger] samjnas@[j])@ == self.samjnas@[j]@,
            decreases self.samjnas.len() - k,
        {
            samjnas.push(self.samjnas[k].clone());
            k = k + 1;
        }
        let mut seq: Vec<SeqSystem> = Vec::new();
        let mut m: usize = 0;
        while m < self.seq.len()
            invariant
                m <= self.seq.len(),
                seq.len() == m,
                forall|j: int| 0 <= j < m ==> (#[trigger] seq@[j])@ == self.seq@[j]@,
            decreases self.seq.len() - m,
        {
            seq.push(self.seq[m].clone());
            m = m + 1;
        }
        let mut classes: Vec<Class> = Vec::new();
        let mut c: usize = 0;
        while c < self.classes.len()
            invariant
                c <= self.classes.len(),
                classes.len() == c,
                forall|j: int| 0 <= j < c ==> (#[trigger] classes@[j])@ == self.classes@[j]@,
            decreases self.classes.len() - c,
        {
            classes.push(self.classes[c].clone());
            c = c + 1;
        }
        let mut inventory: Vec<SivaSutra> = Vec::new();
        let mut v: usize = 0;
        while v < self.inventory.len()
            invariant
                v <= self.inventory.len(),
                inventory.len() == v,
                forall|j: int| 0 <= j < v ==> (#[trigger] inventory@[j])@ == self.inventory@[j]@,
            decreases self.inventory.len() - v,
        {
            inventory.push(self.inventory[v].clone());
            v = v + 1;
        }
        let r = Program {
            rules,
            samjnas,
            prayogas: clone_terms(&self.prayogas),
            imports: clone_names(&self.imports),
            seq,
            classes,
            inventory,
        };
        proof {
            assert(inventory_view(r.inventory@) =~= inventory_view(self.inventory@));
            assert(rules_view(r.rules@) =~= rules_view(self.rules@));
            assert(samjnas_view(r.samjnas@) =~= samjnas_view(self.samjnas@));
            assert(systems_view(r.seq@) =~= systems_view(self.seq@));
            assert(classes_view(r.classes@) =~= classes_view(self.classes@));
        }
        r
    }
}

impl Default for Program {
    fn default() -> (p: Program)
        ensures
            p@ == (ProgramV {
                rules: Seq::empty(),
                samjnas: Seq::empty(),
                prayogas: Seq::empty(),
                imports: Seq::empty(),
                seq: Seq::empty(),
                classes: Seq::empty(),
                inventory: Seq::empty(),
            }),
    {
        let p = Program {
            rules: Vec::new(),
            samjnas: Vec::new(),
            prayogas: Vec::new(),
            imports: Vec::new(),
            seq: Vec::new(),
            classes: Vec::new(),
            inventory: Vec::new(),
        };
        proof {
            assert(inventory_view(p.inventory@) =~= Seq::<SivaSutraV>::empty());
            assert(systems_view(p.seq@) =~= Seq::<SeqSystemV>::empty());
            assert(classes_view(p.classes@) =~= Seq::<ClassV>::empty());
            assert(rules_view(p.rules@) =~= Seq::<RuleV>::empty());
            assert(samjnas_view(p.samjnas@) =~= Seq::<SamjnaV>::empty());
            assert(terms_view(p.prayogas@) =~= Seq::<TermV>::empty());
            assert(names_view(p.imports@) =~= Seq::<Seq<char>>::empty());
        }
        p
    }
}

impl Program {
    /// Append another program's declarations. Its rules are renumbered to
    /// come after this program's, so later declarations keep winning; a
    /// śivasūtra inventory that it declares replaces this program's.
    pub fn extend(&mut self, other: Program)
        requires
            forall|i: int|
                0 <= i < other.rules.len() ==> old(self).rules.len() + (#[trigger] other.rules@[i]).order
                    <= usize::MAX,
        ensures
            final(self)@ == (ProgramV {
                rules: old(self)@.rules + shift_rules(other@.rules, old(self).rules.len() as nat),
                samjnas: old(self)@.samjnas + other@.samjnas,
                prayogas: old(self)@.prayogas + other@.prayogas,
                imports: old(self)@.imports + other@.imports,
                seq: old(self)@.seq + other@.seq,
                classes: old(self)@.classes + other@.classes,
                inventory: if other@.inventory.len() > 0 {
                    other@.inventory
                } else {
                    old(self)@.inventory
                },
            }),
    {
        let ghost old_view = self@;
        let ghost other_view = other@;
        let base = self.rules.len();
        let Program { rules, mut samjnas, mut prayogas, mut imports, mut seq, mut classes, inventory } = other;
        let ghost other_rules = rules@;
        for r in it: rules
            invariant
                it.seq() == other_rules,
                base == old_view.rules.len(),
                forall|i: int|
                    0 <= i < other_rules.len() ==> base + (#[trigger] other_rules[i]).order <= usize::MAX,
                rules_view(self.rules@) == old_view.rules + shift_rules(
                    rules_view(other_rules.take(it.index() as int)),
                    base as nat,
                ),
                samjnas_view(self.samjnas@) == old_view.samjnas,
                terms_view(self.prayogas@) == old_view.prayogas,
                names_view(self.imports@) == old_view.imports,
                systems_view(self.seq@) == old_view.seq,
                classes_view(self.classes@) == old_view.classes,
                inventory_view(self.inventory@) == old_view.inventory,
        {
            let ghost k = it.index() as int;
            let ghost rv = r@;
            let ghost prev = self.rules@;
            let Rule { lhs, guard, rhs, order } = r;
            let shifted = Rule { lhs, guard, rhs, order: base + order };
            proof {
                assert(other_rules[k] == r);
                assert(shifted@ == (RuleV { lhs: rv.lhs, guard: rv.guard, rhs: rv.rhs, order: rv.order + base as nat }));
            }
            self.rules.push(shifted);
            proof {
                let done = rules_view(other_rules.take(k));
                assert(other_rules.take(k + 1) =~= other_rules.take(k).push(r));
                assert(rules_view(other_rules.take(k + 1)) =~= done.push(rv));
                assert(shift_rules(done.push(rv), base as nat) =~= shift_rules(done, base as nat).push(
                    shifted@,
                ));
                assert(rules_view(self.rules@) =~= rules_view(prev).push(shifted@));
                assert(rules_view(self.rules@) =~= old_view.rules + shift_rules(
                    rules_view(other_rules.take(k + 1)),
                    base as nat,
                ));
            }
        }
        proof {
            assert(other_rules.take(other_rules.len() as int) =~= other_rules);
        }
        let ghost s0 = self.samjnas@;
        let ghost s1 = samjnas@;
        let ghost p0 = self.prayogas@;
        let ghost p1 = prayogas@;
        let ghost i0 = self.imports@;
        let ghost i1 = imports@;
        let ghost q0 = self.seq@;
        let ghost q1 = seq@;
        let ghost c0 = self.classes@;
        let ghost c1 = classes@;
        self.samjnas.append(&mut samjnas);
        self.prayogas.append(&mut prayogas);
        self.imports.append(&mut imports);
        self.seq.append(&mut seq);
        self.classes.append(&mut classes);
        if inventory.len() > 0 {
            self.inventory = inventory;
        }
        proof {
            assert(systems_view(q0 + q1) =~= systems_view(q0) + systems_view(q1));
            assert(classes_view(c0 + c1) =~= classes_view(c0) + classes_view(c1));
            assert(samjnas_view(s0 + s1) =~= samjnas_view(s0) + samjnas_view(s1));
            assert(names_view(i0 + i1) =~= names_view(i0) + names_view(i1));
            lemma_terms_view(p0);
            lemma_terms_view(p1);
            lemma_terms_view(p0 + p1);
            assert(terms_view(p0 + p1) =~= terms_view(p0) + terms_view(p1));
        }
    }

    /// The first saṃjñā declared under `name`.
    pub fn samjna(&self, name: &str) -> (r: Option<&Samjna>)
        ensures
            match r {
                Some(s) => find_samjna(self@.samjnas, name@) == Some(s@),
                None => find_samjna(self@.samjnas, name@) == None::<SamjnaV>,
            },
    {
        let mut i: usize = 0;
        proof {
            assert(self@.samjnas.skip(0) =~= self@.samjnas);
        }
        while i < self.samjnas.len()
            invariant
                i <= self.samjnas.len(),
                find_samjna(self@.samjnas, name@) == find_samjna(self@.samjnas.skip(i as int), name@),
            decreases self.samjnas.len() - i,
        {
            proof {
                assert(self@.samjnas.skip(i as int).drop_first() =~= self@.samjnas.skip(i + 1));
            }
            if str_eq(self.samjnas[i].name.as_str(), name) {
                return Some(&self.samjnas[i]);
            }
            i = i + 1;
        }
        None
    }

    /// The right-hand side of the `मुख्य` (main) rule, if one is declared;
    /// the last declaration wins.
    pub fn main_action(&self) -> (r: Option<Term>)
        ensures
            match r {
                Some(t) => last_main(self@.rules) == Some(t@),
                None => last_main(self@.rules) == None::<TermV>,
            },
    {
        let mut i: usize = self.rules.len();
        proof {
            assert(self@.rules.take(i as int) =~= self@.rules);
        }
        while i > 0
            invariant
                i <= self.rules.len(),
                last_main(self@.rules) == last_main(self@.rules.take(i as int)),
            decreases i,
        {
            let r = &self.rules[i - 1];
            proof {
                assert(self@.rules.take(i as int).drop_last() =~= self@.rules.take(i - 1));
                assert(self@.rules.take(i as int).last() == r@);
            }
            if let Term::Sym(n, args) = &r.lhs {
                if str_eq(n.as_str(), "मुख्य") && args.len() == 0 {
                    proof {
                        lemma_terms_view(args@);
                    }
                    return Some(clone_term(&r.rhs));
                }
                proof {
                    lemma_terms_view(args@);
                }
            }
            i = i - 1;
        }
        None
    }
}

/// Extending keeps paratva: when the rules are numbered in declaration
/// order (each order below the count of rules), every appended rule comes
/// after every earlier rule.
pub proof fn lemma_extend_orders_later(old: Seq<RuleV>, other: Seq<RuleV>)
    requires
        forall|i: int| 0 <= i < old.len() ==> (#[trigger] old[i]).order < old.len(),
    ensures
        forall|i: int, j: int|
            0 <= i < old.len() && 0 <= j < other.len() ==> (#[trigger] (old + shift_rules(
                other,
                old.len(),
            ))[i]).order < (#[trigger] (old + shift_rules(other, old.len()))[old.len() + j]).order,
{
    let all = old + shift_rules(other, old.len());
    assert forall|i: int, j: int| 0 <= i < old.len() && 0 <= j < other.len() implies (
    #[trigger] all[i]).order < (#[trigger] all[old.len() + j]).order by {
        assert(all[i] == old[i]);
        assert(all[old.len() + j] == shift_rules(other, old.len())[j]);
    }
}

} // verus!
