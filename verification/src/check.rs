//! The static checker (`sutra check`). Without imposing a type system it
//! reports three kinds of likely mistakes:
//!
//! 1. unbound variables in a rule's guard or right-hand side, or in a
//!    प्रयोग (errors);
//! 2. saṃjñā constructors used with the wrong number of arguments
//!    (warnings);
//! 3. one-argument functions whose clauses cover some but not all
//!    constructors of one saṃjñā, with no catch-all (warnings);
//! 4. गण classes declared by a pratyāhāra that the śivasūtra inventory
//!    cannot derive (errors).
use crate::ast::{
    entries_view, lemma_entries_view, lemma_terms_view, names_view, rules_view,
    terms_view, Program, ProgramV, Rule, RuleV, SamjnaV, Term, TermV,
};
use crate::decimal::{nat_to_decimal, push_decimal};
use crate::krama::ClassV;
use crate::sivasutra::{pratyahara, pratyahara_spec, SivaSutraV};
use crate::pretty::{comma_sep, join, join_comma, show, show_spec};
use crate::text::{chars_of, push_str, str_eq};
use vstd::prelude::*;

verus! {

#[derive(Clone, Copy, PartialEq, Eq, Structural)]
pub enum Severity {
    Error,
    Warning,
}

pub struct Diagnostic {
    pub severity: Severity,
    pub msg: String,
}

/// The view of a finding.
pub struct DiagV {
    pub severity: Severity,
    pub msg: Seq<char>,
}

impl View for Diagnostic {
    type V = DiagV;

    open spec fn view(&self) -> DiagV {
        DiagV { severity: self.severity, msg: self.msg@ }
    }
}

/// The views of a sequence of findings.
pub open spec fn diags_view(ds: Seq<Diagnostic>) -> Seq<DiagV> {
    ds.map_values(|d: Diagnostic| d@)
}

impl Diagnostic {
    /// A finding that is almost certainly a mistake.
    pub fn error(msg: String) -> (d: Diagnostic)
        ensures
            d.severity == Severity::Error,
            d.msg@ == msg@,
    {
        Diagnostic { severity: Severity::Error, msg }
    }

    /// A finding that may be a mistake.
    pub fn warning(msg: String) -> (d: Diagnostic)
        ensures
            d.severity == Severity::Warning,
            d.msg@ == msg@,
    {
        Diagnostic { severity: Severity::Warning, msg }
    }
}

// ---------------------------------------------------------------------------
// Name order and sorted name lists.
/// Lexicographic order of character sequences by code point (the order of
/// their UTF-8 bytes).
pub open spec fn name_lt(a: Seq<char>, b: Seq<char>) -> bool
    decreases a.len(),
{
    if a.len() == 0 {
        b.len() > 0
    } else if b.len() == 0 {
        false
    } else if a[0] != b[0] {
        (a[0] as u32) < (b[0] as u32)
    } else {
        name_lt(a.drop_first(), b.drop_first())
    }
}

/// Insert `x` into a sorted, duplicate-free list of names.
pub open spec fn insert_sorted(s: Seq<Seq<char>>, x: Seq<char>) -> Seq<Seq<char>>
    decreases s.len(),
{
    if s.len() == 0 {
        seq![x]
    } else if x == s[0] {
        s
    } else if name_lt(x, s[0]) {
        seq![x] + s
    } else {
        seq![s[0]] + insert_sorted(s.drop_first(), x)
    }
}

/// The names of `xs`, sorted and without duplicates.
pub open spec fn sort_dedup(xs: Seq<Seq<char>>) -> Seq<Seq<char>>
    decreases xs.len(),
{
    if xs.len() == 0 {
        Seq::empty()
    } else {
        insert_sorted(sort_dedup(xs.drop_last()), xs.last())
    }
}

/// No name comes before itself.
pub proof fn lemma_name_lt_irreflexive(a: Seq<char>)
    ensures
        !name_lt(a, a),
    decreases a.len(),
{
    if a.len() > 0 {
        lemma_name_lt_irreflexive(a.drop_first());
    }
}

/// Name order is transitive.
pub proof fn lemma_name_lt_transitive(a: Seq<char>, b: Seq<char>, c: Seq<char>)
    requires
        name_lt(a, b),
        name_lt(b, c),
    ensures
        name_lt(a, c),
    decreases a.len(),
{
    if a.len() > 0 && b.len() > 0 && c.len() > 0 && a[0] == b[0] && b[0] == c[0] {
        lemma_name_lt_transitive(a.drop_first(), b.drop_first(), c.drop_first());
    }
}

/// Of two different names, one comes before the other.
pub proof fn lemma_name_lt_total(a: Seq<char>, b: Seq<char>)
    requires
        a != b,
    ensures
        name_lt(a, b) || name_lt(b, a),
    decreases a.len(),
{
    if a.len() > 0 && b.len() > 0 && a[0] == b[0] {
        if a.drop_first() == b.drop_first() {
            assert(a =~= seq![a[0]] + a.drop_first());
            assert(b =~= seq![b[0]] + b.drop_first());
        }
        lemma_name_lt_total(a.drop_first(), b.drop_first());
    } else if a.len() > 0 && b.len() > 0 {
        let (x, y) = (a[0], b[0]);
        vstd::utf8::char_u32_cast(x, x as u32);
        vstd::utf8::char_u32_cast(y, y as u32);
        assert((x as u32) != (y as u32));
    } else if a.len() == 0 && b.len() == 0 {
        assert(a =~= b);
    }
}

/// Strictly increasing in name order: sorted, with no name twice.
pub open spec fn strictly_sorted(s: Seq<Seq<char>>) -> bool {
    forall|i: int, j: int| 0 <= i < j < s.len() ==> name_lt(#[trigger] s[i], #[trigger] s[j])
}

/// Inserting into a strictly sorted list keeps it strictly sorted and adds
/// exactly the new name.
pub proof fn lemma_insert_sorted(s: Seq<Seq<char>>, x: Seq<char>)
    requires
        strictly_sorted(s),
    ensures
        strictly_sorted(insert_sorted(s, x)),
        forall|y: Seq<char>| #[trigger] insert_sorted(s, x).contains(y) <==> (s.contains(y) || y == x),
    decreases s.len(),
{
    let r = insert_sorted(s, x);
    if s.len() == 0 {
        assert(r =~= seq![x]);
        assert forall|y: Seq<char>| #[trigger] r.contains(y) <==> (s.contains(y) || y == x) by {
            if r.contains(y) {
                let k = choose|k: int| 0 <= k < r.len() && r[k] == y;
                assert(k == 0);
            }
            if y == x {
                assert(r[0] == y);
            }
        }
    } else if x == s[0] {
        assert forall|y: Seq<char>| #[trigger] r.contains(y) <==> (s.contains(y) || y == x) by {
            if y == x {
                assert(s[0] == y);
            }
        }
    } else if name_lt(x, s[0]) {
        assert forall|i: int, j: int| 0 <= i < j < r.len() implies name_lt(#[trigger] r[i], #[trigger] r[j]) by {
            if i == 0 {
                assert(r[j] == s[j - 1]);
                if j - 1 > 0 {
                    assert(name_lt(s[0], s[j - 1]));
                    lemma_name_lt_transitive(x, s[0], s[j - 1]);
                }
            } else {
                assert(r[i] == s[i - 1] && r[j] == s[j - 1]);
            }
        }
        assert forall|y: Seq<char>| #[trigger] r.contains(y) <==> (s.contains(y) || y == x) by {
            if r.contains(y) {
                let k = choose|k: int| 0 <= k < r.len() && r[k] == y;
                if k > 0 {
                    assert(s[k - 1] == y);
                }
            }
            if s.contains(y) {
                let k = choose|k: int| 0 <= k < s.len() && s[k] == y;
                assert(r[k + 1] == y);
            }
            if y == x {
                assert(r[0] == y);
            }
        }
    } else {
        let t = s.drop_first();
        assert forall|i: int, j: int| 0 <= i < j < t.len() implies name_lt(#[trigger] t[i], #[trigger] t[j]) by {
            assert(t[i] == s[i + 1] && t[j] == s[j + 1]);
        }
        lemma_insert_sorted(t, x);
        let rt = insert_sorted(t, x);
        assert(r =~= seq![s[0]] + rt);
        lemma_name_lt_total(x, s[0]);
        assert forall|k: int| 0 <= k < rt.len() implies name_lt(s[0], #[trigger] rt[k]) by {
            assert(rt.contains(rt[k]));
            if rt[k] != x {
                assert(t.contains(rt[k]));
                let m = choose|m: int| 0 <= m < t.len() && t[m] == rt[k];
                assert(s[m + 1] == rt[k]);
                assert(name_lt(s[0], s[m + 1]));
            }
        }
        assert forall|i: int, j: int| 0 <= i < j < r.len() implies name_lt(#[trigger] r[i], #[trigger] r[j]) by {
            if i == 0 {
                assert(r[j] == rt[j - 1]);
            } else {
                assert(r[i] == rt[i - 1] && r[j] == rt[j - 1]);
            }
        }
        assert forall|y: Seq<char>| #[trigger] r.contains(y) <==> (s.contains(y) || y == x) by {
            if r.contains(y) {
                let k = choose|k: int| 0 <= k < r.len() && r[k] == y;
                if k == 0 {
                    assert(s[0] == y);
                } else {
                    assert(rt[k - 1] == y);
                    assert(rt.contains(y));
                    if y != x {
                        let m = choose|m: int| 0 <= m < t.len() && t[m] == y;
                        assert(s[m + 1] == y);
                    }
                }
            }
            if s.contains(y) {
                let k = choose|k: int| 0 <= k < s.len() && s[k] == y;
                if k == 0 {
                    assert(r[0] == y);
                } else {
                    assert(t[k - 1] == y);
                    assert(rt.contains(y));
                    let m = choose|m: int| 0 <= m < rt.len() && rt[m] == y;
                    assert(r[m + 1] == y);
                }
            }
            if y == x {
                assert(rt.contains(y));
                let m = choose|m: int| 0 <= m < rt.len() && rt[m] == y;
                assert(r[m + 1] == y);
            }
        }
    }
}

/// The reported names are sorted, each once, and exactly the names given:
/// `sort_dedup` lists the names of `xs` in strictly increasing order.
pub proof fn lemma_sort_dedup(xs: Seq<Seq<char>>)
    ensures
        strictly_sorted(sort_dedup(xs)),
        forall|y: Seq<char>| #[trigger] sort_dedup(xs).contains(y) <==> xs.contains(y),
    decreases xs.len(),
{
    if xs.len() > 0 {
        let p = xs.drop_last();
        lemma_sort_dedup(p);
        lemma_insert_sorted(sort_dedup(p), xs.last());
        assert forall|y: Seq<char>| #[trigger] sort_dedup(xs).contains(y) <==> xs.contains(y) by {
            if xs.contains(y) {
                let k = choose|k: int| 0 <= k < xs.len() && xs[k] == y;
                if k < xs.len() - 1 {
                    assert(p[k] == y);
                    assert(p.contains(y));
                }
            }
            if p.contains(y) {
                let k = choose|k: int| 0 <= k < p.len() && p[k] == y;
                assert(xs[k] == y);
            }
            if y == xs.last() {
                assert(xs[xs.len() - 1] == y);
            }
        }
    }
}

/// Does `a` come before `b` in name order (code point by code point)?
pub fn name_less(a: &str, b: &str) -> (r: bool)
    ensures
        r == name_lt(a@, b@),
{
    let x = chars_of(a);
    let y = chars_of(b);
    let mut i: usize = 0;
    proof {
        assert(x@.skip(0) =~= x@);
        assert(y@.skip(0) =~= y@);
    }
    while i < x.len() && i < y.len() && x[i] == y[i]
        invariant
            x@ == a@,
            y@ == b@,
            i <= x.len(),
            i <= y.len(),
            name_lt(a@, b@) == name_lt(x@.skip(i as int), y@.skip(i as int)),
        decreases x.len() - i,
    {
        proof {
            assert(x@.skip(i as int).drop_first() =~= x@.skip(i + 1));
            assert(y@.skip(i as int).drop_first() =~= y@.skip(i + 1));
        }
        i = i + 1;
    }
    if i == x.len() {
        i < y.len()
    } else if i == y.len() {
        false
    } else {
        (x[i] as u32) < (y[i] as u32)
    }
}

/// Insert `x` into a sorted, duplicate-free list of names.
fn insert_name(names: &mut Vec<String>, x: String)
    ensures
        names_view(final(names)@) == insert_sorted(names_view(old(names)@), x@),
{
    let ghost s = names_view(names@);
    let mut j: usize = 0;
    proof {
        assert(s.skip(0) =~= s);
        assert(s.take(0) + s =~= s);
    }
    while j < names.len()
        invariant
            j <= names.len(),
            s == names_view(names@),
            s == names_view(old(names)@),
            insert_sorted(s, x@) == s.take(j as int) + insert_sorted(s.skip(j as int), x@),
        decreases names.len() - j,
    {
        proof {
            assert(s.skip(j as int)[0] == names@[j as int]@);
            assert(s.skip(j as int).drop_first() =~= s.skip(j + 1));
        }
        if str_eq(names[j].as_str(), x.as_str()) {
            proof {
                assert(insert_sorted(s.skip(j as int), x@) == s.skip(j as int));
                assert(s.take(j as int) + s.skip(j as int) =~= s);
            }
            return;
        }
        if name_less(x.as_str(), names[j].as_str()) {
            let ghost xv = x@;
            names.insert(j, x);
            proof {
                assert(insert_sorted(s.skip(j as int), xv) == seq![xv] + s.skip(j as int));
                assert(names_view(names@) =~= s.take(j as int) + (seq![xv] + s.skip(j as int)));
            }
            return;
        }
        proof {
            assert(s.take(j as int) + seq![s[j as int]] =~= s.take(j + 1));
            assert(s.take(j as int) + (seq![s[j as int]] + insert_sorted(s.skip(j + 1), x@)) =~= s.take(j + 1)
                + insert_sorted(s.skip(j + 1), x@));
        }
        j = j + 1;
    }
    let ghost xv = x@;
    names.push(x);
    proof {
        assert(s.skip(j as int) =~= Seq::<Seq<char>>::empty());
        assert(s.take(j as int) =~= s);
        assert(names_view(names@) =~= s + seq![xv]);
    }
}

/// Sort the names and drop duplicates.
fn sort_names(xs: Vec<String>) -> (r: Vec<String>)
    ensures
        names_view(r@) == sort_dedup(names_view(xs@)),
{
    let ghost xv = names_view(xs@);
    let mut out: Vec<String> = Vec::new();
    let mut i: usize = 0;
    let mut rest = xs;
    proof {
        assert(xv.take(0) =~= Seq::<Seq<char>>::empty());
        assert(names_view(out@) =~= Seq::<Seq<char>>::empty());
    }
    while i < rest.len()
        invariant
            i <= rest.len(),
            xv == names_view(rest@),
            names_view(out@) == sort_dedup(xv.take(i as int)),
        decreases rest.len() - i,
    {
        let name = rest[i].clone();
        insert_name(&mut out, name);
        proof {
            assert(xv.take(i + 1).drop_last() =~= xv.take(i as int));
            assert(xv.take(i + 1).last() == xv[i as int]);
        }
        i = i + 1;
    }
    proof {
        assert(xv.take(i as int) =~= xv);
    }
    out
}

// ---------------------------------------------------------------------------
// Variables: those a pattern binds, and those a term uses unbound.
/// The variables of a left-hand side, in order of occurrence. Lambdas in a
/// pattern bind nothing.
pub open spec fn pattern_vars(t: TermV) -> Seq<Seq<char>>
    decreases t,
{
    match t {
        TermV::Var(v) => seq![v],
        TermV::Sym(_, args) => pattern_vars_all(args),
        TermV::App(f, args) => pattern_vars(*f) + pattern_vars_all(args),
        TermV::Kosha(es) => pattern_vars_entries(es),
        _ => Seq::empty(),
    }
}

pub open spec fn pattern_vars_all(ts: Seq<TermV>) -> Seq<Seq<char>>
    decreases ts,
{
    if ts.len() == 0 {
        Seq::empty()
    } else {
        pattern_vars_all(ts.drop_last()) + pattern_vars(ts.last())
    }
}

pub open spec fn pattern_vars_entries(es: Seq<(TermV, TermV)>) -> Seq<Seq<char>>
    decreases es,
{
    if es.len() == 0 {
        Seq::empty()
    } else {
        pattern_vars_entries(es.drop_last()) + pattern_vars(es.last().0) + pattern_vars(es.last().1)
    }
}

/// The uses of variables outside `bound`, in order of occurrence; a
/// lambda's parameters are bound in its body.
pub open spec fn free_uses(t: TermV, bound: Set<Seq<char>>) -> Seq<Seq<char>>
    decreases t,
{
    match t {
        TermV::Var(v) => if bound.contains(v) {
            Seq::empty()
        } else {
            seq![v]
        },
        TermV::Sym(_, args) => free_uses_all(args, bound),
        TermV::App(f, args) => free_uses(*f, bound) + free_uses_all(args, bound),
        TermV::Lam(ps, body) => free_uses(*body, bound.union(ps.to_set())),
        TermV::Kosha(es) => free_uses_entries(es, bound),
        _ => Seq::empty(),
    }
}

pub open spec fn free_uses_all(ts: Seq<TermV>, bound: Set<Seq<char>>) -> Seq<Seq<char>>
    decreases ts,
{
    if ts.len() == 0 {
        Seq::empty()
    } else {
        free_uses_all(ts.drop_last(), bound) + free_uses(ts.last(), bound)
    }
}

pub open spec fn free_uses_entries(es: Seq<(TermV, TermV)>, bound: Set<Seq<char>>) -> Seq<Seq<char>>
    decreases es,
{
    if es.len() == 0 {
        Seq::empty()
    } else {
        free_uses_entries(es.drop_last(), bound) + free_uses(es.last().0, bound) + free_uses(
            es.last().1,
            bound,
        )
    }
}

/// Is `v` one of the names?
fn contains_name(names: &Vec<String>, v: &str) -> (r: bool)
    ensures
        r == names_view(names@).contains(v@),
{
    let mut i: usize = 0;
    while i < names.len()
        invariant
            i <= names.len(),
            forall|j: int| 0 <= j < i ==> names@[j]@ != v@,
        decreases names.len() - i,
    {
        if str_eq(names[i].as_str(), v) {
            proof {
                assert(names_view(names@)[i as int] == v@);
            }
            return true;
        }
        i = i + 1;
    }
    proof {
        if names_view(names@).contains(v@) {
            let k = choose|k: int| 0 <= k < names_view(names@).len() && names_view(names@)[k] == v@;
            assert(names@[k]@ == v@);
        }
    }
    false
}

/// Append the variables a pattern binds.
fn collect_pattern_vars(t: &Term, out: &mut Vec<String>)
    ensures
        names_view(final(out)@) == names_view(old(out)@) + pattern_vars(t@),
    decreases t,
{
    let ghost start = names_view(out@);
    match t {
        Term::Var(v) => {
            out.push(v.clone());
            proof {
                assert(names_view(out@) =~= start + seq![v@]);
            }
        },
        Term::Sym(_, args) => {
            collect_pattern_vars_all(args, out);
        },
        Term::App(f, args) => {
            collect_pattern_vars(f, out);
            collect_pattern_vars_all(args, out);
            proof {
                assert(names_view(out@) =~= start + (pattern_vars((**f)@) + pattern_vars_all(
                    terms_view(args@),
                )));
            }
        },
        Term::Kosha(es) => {
            collect_pattern_vars_entries(es, out);
        },
        _ => {
            proof {
                assert(names_view(out@) =~= start + Seq::<Seq<char>>::empty());
            }
        },
    }
}

fn collect_pattern_vars_all(ts: &Vec<Term>, out: &mut Vec<String>)
    ensures
        names_view(final(out)@) == names_view(old(out)@) + pattern_vars_all(terms_view(ts@)),
    decreases ts,
{
    let ghost start = names_view(out@);
    let ghost tv = terms_view(ts@);
    proof {
        lemma_terms_view(ts@);
    }
    let mut i: usize = 0;
    proof {
        assert(tv.take(0) =~= Seq::<TermV>::empty());
        assert(start + pattern_vars_all(tv.take(0)) =~= start);
    }
    while i < ts.len()
        invariant
            i <= ts.len(),
            tv == terms_view(ts@),
            tv.len() == ts.len(),
            forall|j: int| 0 <= j < ts.len() ==> #[trigger] tv[j] == ts@[j]@,
            names_view(out@) == start + pattern_vars_all(tv.take(i as int)),
        decreases ts.len() - i,
    {
        collect_pattern_vars(&ts[i], out);
        proof {
            assert(tv.take(i + 1).drop_last() =~= tv.take(i as int));
            assert(tv.take(i + 1).last() == tv[i as int]);
            assert(names_view(out@) =~= start + pattern_vars_all(tv.take(i + 1)));
        }
        i = i + 1;
    }
    proof {
        assert(tv.take(i as int) =~= tv);
    }
}

fn collect_pattern_vars_entries(es: &Vec<(Term, Term)>, out: &mut Vec<String>)
    ensures
        names_view(final(out)@) == names_view(old(out)@) + pattern_vars_entries(entries_view(es@)),
    decreases es,
{
    let ghost start = names_view(out@);
    let ghost ev = entries_view(es@);
    proof {
        lemma_entries_view(es@);
    }
    let mut i: usize = 0;
    proof {
        assert(ev.take(0) =~= Seq::<(TermV, TermV)>::empty());
        assert(start + pattern_vars_entries(ev.take(0)) =~= start);
    }
    while i < es.len()
        invariant
            i <= es.len(),
            ev == entries_view(es@),
            ev.len() == es.len(),
            forall|j: int| 0 <= j < es.len() ==> #[trigger] ev[j] == (es@[j].0@, es@[j].1@),
            names_view(out@) == start + pattern_vars_entries(ev.take(i as int)),
        decreases es.len() - i,
    {
        collect_pattern_vars(&es[i].0, out);
        collect_pattern_vars(&es[i].1, out);
        proof {
            assert(ev.take(i + 1).drop_last() =~= ev.take(i as int));
            assert(ev.take(i + 1).last() == ev[i as int]);
            assert(names_view(out@) =~= start + pattern_vars_entries(ev.take(i + 1)));
        }
        i = i + 1;
    }
    proof {
        assert(ev.take(i as int) =~= ev);
    }
}

/// The set of the names in a list.
pub open spec fn name_set(ns: Seq<String>) -> Set<Seq<char>> {
    names_view(ns).to_set()
}

/// Append the uses in `t` of variables outside `bound`.
fn free_unbound(t: &Term, bound: &Vec<String>, out: &mut Vec<String>)
    ensures
        names_view(final(out)@) == names_view(old(out)@) + free_uses(t@, name_set(bound@)),
    decreases t,
{
    let ghost start = names_view(out@);
    match t {
        Term::Var(v) => {
            if !contains_name(bound, v.as_str()) {
                out.push(v.clone());
                proof {
                    assert(names_view(out@) =~= start + seq![v@]);
                }
            } else {
                proof {
                    assert(names_view(out@) =~= start + Seq::<Seq<char>>::empty());
                }
            }
        },
        Term::Sym(_, args) => {
            free_unbound_all(args, bound, out);
        },
        Term::App(f, args) => {
            free_unbound(f, bound, out);
            free_unbound_all(args, bound, out);
            proof {
                assert(names_view(out@) =~= start + (free_uses((**f)@, name_set(bound@))
                    + free_uses_all(terms_view(args@), name_set(bound@))));
            }
        },
        Term::Lam(params, body) => {
            let mut inner: Vec<String> = Vec::new();
            let mut i: usize = 0;
            while i < bound.len()
                invariant
                    i <= bound.len(),
                    names_view(inner@) == names_view(bound@.take(i as int)),
                decreases bound.len() - i,
            {
                inner.push(bound[i].clone());
                proof {
                    assert(names_view(bound@.take(i + 1)) =~= names_view(bound@.take(i as int)).push(
                        bound@[i as int]@,
                    ));
                }
                i = i + 1;
            }
            let mut k: usize = 0;
            while k < params.len()
                invariant
                    k <= params.len(),
                    names_view(inner@) == names_view(bound@) + names_view(params@.take(k as int)),
                decreases params.len() - k,
            {
                proof {
                    assert(bound@.take(bound.len() as int) =~= bound@);
                }
                let ghost before = names_view(inner@);
                inner.push(params[k].clone());
                proof {
                    assert(names_view(params@.take(k + 1)) =~= names_view(params@.take(k as int)).push(
                        params@[k as int]@,
                    ));
                    assert(names_view(inner@) =~= before.push(params@[k as int]@));
                    assert(names_view(inner@) =~= names_view(bound@) + names_view(params@.take(k + 1)));
                }
                k = k + 1;
            }
            proof {
                assert(bound@.take(bound.len() as int) =~= bound@);
                assert(params@.take(params.len() as int) =~= params@);
                lemma_concat_to_set(names_view(bound@), names_view(params@));
            }
            free_unbound(body, &inner, out);
        },
        Term::Kosha(es) => {
            free_unbound_entries(es, bound, out);
        },
        _ => {
            proof {
                assert(names_view(out@) =~= start + Seq::<Seq<char>>::empty());
            }
        },
    }
}

/// The set of a concatenation is the union of the sets.
proof fn lemma_concat_to_set(a: Seq<Seq<char>>, b: Seq<Seq<char>>)
    ensures
        (a + b).to_set() == a.to_set().union(b.to_set()),
{
    assert forall|x: Seq<char>| (a + b).to_set().contains(x) <==> a.to_set().union(b.to_set()).contains(x) by {
        if (a + b).contains(x) {
            let k = choose|k: int| 0 <= k < (a + b).len() && (a + b)[k] == x;
            if k < a.len() {
                assert(a[k] == x);
            } else {
                assert(b[k - a.len()] == x);
            }
        }
        if a.contains(x) {
            let k = choose|k: int| 0 <= k < a.len() && a[k] == x;
            assert((a + b)[k] == x);
        }
        if b.contains(x) {
            let k = choose|k: int| 0 <= k < b.len() && b[k] == x;
            assert((a + b)[k + a.len()] == x);
        }
    }
    assert((a + b).to_set() =~= a.to_set().union(b.to_set()));
}

fn free_unbound_all(ts: &Vec<Term>, bound: &Vec<String>, out: &mut Vec<String>)
    ensures
        names_view(final(out)@) == names_view(old(out)@) + free_uses_all(terms_view(ts@), name_set(bound@)),
    decreases ts,
{
    let ghost start = names_view(out@);
    let ghost tv = terms_view(ts@);
    let ghost b = name_set(bound@);
    proof {
        lemma_terms_view(ts@);
    }
    let mut i: usize = 0;
    proof {
        assert(tv.take(0) =~= Seq::<TermV>::empty());
        assert(start + free_uses_all(tv.take(0), b) =~= start);
    }
    while i < ts.len()
        invariant
            i <= ts.len(),
            tv == terms_view(ts@),
            b == name_set(bound@),
            tv.len() == ts.len(),
            forall|j: int| 0 <= j < ts.len() ==> #[trigger] tv[j] == ts@[j]@,
            names_view(out@) == start + free_uses_all(tv.take(i as int), b),
        decreases ts.len() - i,
    {
        free_unbound(&ts[i], bound, out);
        proof {
            assert(tv.take(i + 1).drop_last() =~= tv.take(i as int));
            assert(tv.take(i + 1).last() == tv[i as int]);
            assert(names_view(out@) =~= start + free_uses_all(tv.take(i + 1), b));
        }
        i = i + 1;
    }
    proof {
        assert(tv.take(i as int) =~= tv);
    }
}

fn free_unbound_entries(es: &Vec<(Term, Term)>, bound: &Vec<String>, out: &mut Vec<String>)
    ensures
        names_view(final(out)@) == names_view(old(out)@) + free_uses_entries(
            entries_view(es@),
            name_set(bound@),
        ),
    decreases es,
{
    let ghost start = names_view(out@);
    let ghost ev = entries_view(es@);
    let ghost b = name_set(bound@);
    proof {
        lemma_entries_view(es@);
    }
    let mut i: usize = 0;
    proof {
        assert(ev.take(0) =~= Seq::<(TermV, TermV)>::empty());
        assert(start + free_uses_entries(ev.take(0), b) =~= start);
    }
    while i < es.len()
        invariant
            i <= es.len(),
            ev == entries_view(es@),
            b == name_set(bound@),
            ev.len() == es.len(),
            forall|j: int| 0 <= j < es.len() ==> #[trigger] ev[j] == (es@[j].0@, es@[j].1@),
            names_view(out@) == start + free_uses_entries(ev.take(i as int), b),
        decreases es.len() - i,
    {
        free_unbound(&es[i].0, bound, out);
        free_unbound(&es[i].1, bound, out);
        proof {
            assert(ev.take(i + 1).drop_last() =~= ev.take(i as int));
            assert(ev.take(i + 1).last() == ev[i as int]);
            assert(names_view(out@) =~= start + free_uses_entries(ev.take(i + 1), b));
        }
        i = i + 1;
    }
    proof {
        assert(ev.take(i as int) =~= ev);
    }
}

// ---------------------------------------------------------------------------
// Constructors declared by saṃjñās.
/// A constructor declared by a saṃjñā alternative: its name, arity and
/// the saṃjñā that declares it.
pub struct CtorInfo {
    pub ctor: Seq<char>,
    pub arity: nat,
    pub owner: Seq<char>,
}

/// The constructors declared by one saṃjñā's alternatives, in order.
pub open spec fn alt_infos(owner: Seq<char>, alts: Seq<TermV>) -> Seq<CtorInfo>
    decreases alts.len(),
{
    if alts.len() == 0 {
        Seq::empty()
    } else {
        alt_infos(owner, alts.drop_last()) + match alts.last() {
            TermV::Sym(n, a) => seq![CtorInfo { ctor: n, arity: a.len(), owner }],
            _ => Seq::<CtorInfo>::empty(),
        }
    }
}

/// Every constructor declaration of the saṃjñās, in declaration order.
pub open spec fn ctor_infos(ss: Seq<SamjnaV>) -> Seq<CtorInfo>
    decreases ss.len(),
{
    if ss.len() == 0 {
        Seq::empty()
    } else {
        ctor_infos(ss.drop_last()) + alt_infos(ss.last().name, ss.last().alts)
    }
}

/// The last declaration of constructor `c`: a later declaration overrides
/// an earlier one.
pub open spec fn last_info(infos: Seq<CtorInfo>, c: Seq<char>) -> Option<CtorInfo>
    decreases infos.len(),
{
    if infos.len() == 0 {
        None
    } else if infos.last().ctor == c {
        Some(infos.last())
    } else {
        last_info(infos.drop_last(), c)
    }
}

struct CtorEntry {
    ctor: String,
    arity: usize,
    owner: String,
}

impl View for CtorEntry {
    type V = CtorInfo;

    closed spec fn view(&self) -> CtorInfo {
        CtorInfo { ctor: self.ctor@, arity: self.arity as nat, owner: self.owner@ }
    }
}

spec fn table_view(t: Seq<CtorEntry>) -> Seq<CtorInfo> {
    t.map_values(|e: CtorEntry| e@)
}

/// Every constructor that the program's saṃjñās declare.
fn constructor_table(prog: &Program) -> (r: Vec<CtorEntry>)
    ensures
        table_view(r@) == ctor_infos(prog@.samjnas),
{
    let ghost ss = prog@.samjnas;
    let mut out: Vec<CtorEntry> = Vec::new();
    let mut i: usize = 0;
    proof {
        assert(ss.take(0) =~= Seq::<SamjnaV>::empty());
        assert(table_view(out@) =~= Seq::<CtorInfo>::empty());
    }
    while i < prog.samjnas.len()
        invariant
            i <= prog.samjnas.len(),
            ss == prog@.samjnas,
            ss.len() == prog.samjnas.len(),
            table_view(out@) == ctor_infos(ss.take(i as int)),
        decreases prog.samjnas.len() - i,
    {
        let s = &prog.samjnas[i];
        let ghost before = table_view(out@);
        let ghost av = terms_view(s.alts@);
        proof {
            lemma_terms_view(s.alts@);
            assert(ss[i as int] == s@);
            assert(av.take(0) =~= Seq::<TermV>::empty());
            assert(before + alt_infos(s.name@, av.take(0)) =~= before);
        }
        let mut k: usize = 0;
        while k < s.alts.len()
            invariant
                k <= s.alts.len(),
                av == terms_view(s.alts@),
                av.len() == s.alts.len(),
                forall|j: int| 0 <= j < s.alts.len() ==> #[trigger] av[j] == s.alts@[j]@,
                table_view(out@) == before + alt_infos(s.name@, av.take(k as int)),
            decreases s.alts.len() - k,
        {
            let ghost mid = table_view(out@);
            proof {
                assert(av.take(k + 1).drop_last() =~= av.take(k as int));
                assert(av.take(k + 1).last() == s.alts@[k as int]@);
            }
            if let Term::Sym(n, a) = &s.alts[k] {
                out.push(CtorEntry { ctor: n.clone(), arity: a.len(), owner: s.name.clone() });
                proof {
                    lemma_terms_view(a@);
                    assert(table_view(out@) =~= mid + seq![CtorInfo { ctor: n@, arity: a.len() as nat, owner: s.name@ }]);
                    assert(table_view(out@) =~= before + alt_infos(s.name@, av.take(k + 1)));
                }
            } else {
                proof {
                    assert(table_view(out@) =~= before + alt_infos(s.name@, av.take(k + 1)));
                }
            }
            k = k + 1;
        }
        proof {
            assert(av.take(k as int) =~= av);
            assert(ss.take(i + 1).drop_last() =~= ss.take(i as int));
            assert(ss.take(i + 1).last() == s@);
        }
        i = i + 1;
    }
    proof {
        assert(ss.take(i as int) =~= ss);
    }
    out
}

/// The position of the last declaration of constructor `c`.
fn lookup_ctor(table: &Vec<CtorEntry>, c: &str) -> (r: Option<usize>)
    ensures
        match r {
            Some(i) => i < table.len() && last_info(table_view(table@), c@) == Some(table@[i as int]@),
            None => last_info(table_view(table@), c@) == None::<CtorInfo>,
        },
{
    let ghost tv = table_view(table@);
    let mut i: usize = table.len();
    proof {
        assert(tv.take(i as int) =~= tv);
    }
    while i > 0
        invariant
            i <= table.len(),
            tv == table_view(table@),
            last_info(tv, c@) == last_info(tv.take(i as int), c@),
        decreases i,
    {
        proof {
            assert(tv.take(i as int).drop_last() =~= tv.take(i - 1));
            assert(tv.take(i as int).last() == table@[i - 1]@);
        }
        if str_eq(table[i - 1].ctor.as_str(), c) {
            return Some(i - 1);
        }
        i = i - 1;
    }
    None
}

// ---------------------------------------------------------------------------
// Arity mismatches.
/// The warning for constructor `name` of arity `arity` used with `got`
/// arguments.
pub open spec fn arity_msg(name: Seq<char>, arity: nat, got: nat) -> Seq<char> {
    "constructor `"@ + name + "` expects "@ + nat_to_decimal(arity) + " argument(s) but got "@
        + nat_to_decimal(got)
}

/// Arity warnings for the constructor uses in `t`, outermost first.
pub open spec fn arity_diags(t: TermV, infos: Seq<CtorInfo>) -> Seq<DiagV>
    decreases t,
{
    match t {
        TermV::Sym(name, args) => {
            let own = match last_info(infos, name) {
                Some(info) => if args.len() > 0 && args.len() != info.arity {
                    seq![DiagV { severity: Severity::Warning, msg: arity_msg(name, info.arity, args.len()) }]
                } else {
                    Seq::empty()
                },
                None => Seq::empty(),
            };
            own + arity_diags_all(args, infos)
        },
        TermV::App(f, args) => arity_diags(*f, infos) + arity_diags_all(args, infos),
        TermV::Lam(_, body) => arity_diags(*body, infos),
        TermV::Kosha(es) => arity_diags_entries(es, infos),
        _ => Seq::empty(),
    }
}

pub open spec fn arity_diags_all(ts: Seq<TermV>, infos: Seq<CtorInfo>) -> Seq<DiagV>
    decreases ts,
{
    if ts.len() == 0 {
        Seq::empty()
    } else {
        arity_diags_all(ts.drop_last(), infos) + arity_diags(ts.last(), infos)
    }
}

pub open spec fn arity_diags_entries(es: Seq<(TermV, TermV)>, infos: Seq<CtorInfo>) -> Seq<DiagV>
    decreases es,
{
    if es.len() == 0 {
        Seq::empty()
    } else {
        arity_diags_entries(es.drop_last(), infos) + arity_diags(es.last().0, infos) + arity_diags(
            es.last().1,
            infos,
        )
    }
}

/// Push one finding.
fn push_diag(diags: &mut Vec<Diagnostic>, severity: Severity, msg: String)
    ensures
        diags_view(final(diags)@) == diags_view(old(diags)@).push(DiagV { severity, msg: msg@ }),
{
    let ghost before = diags_view(diags@);
    diags.push(Diagnostic { severity, msg });
    proof {
        assert(diags_view(diags@) =~= before.push(DiagV { severity, msg: msg@ }));
    }
}

/// Report constructor uses in `t` with the wrong number of arguments.
fn check_arities(t: &Term, table: &Vec<CtorEntry>, diags: &mut Vec<Diagnostic>)
    ensures
        diags_view(final(diags)@) == diags_view(old(diags)@) + arity_diags(t@, table_view(table@)),
    decreases t,
{
    let ghost start = diags_view(diags@);
    let ghost tv = table_view(table@);
    match t {
        Term::Sym(name, args) => {
            proof {
                lemma_terms_view(args@);
            }
            if let Some(i) = lookup_ctor(table, name.as_str()) {
                let arity = table[i].arity;
                if args.len() != 0 && args.len() != arity {
                    let mut m = String::new();
                    push_str(&mut m, "constructor `");
                    push_str(&mut m, name.as_str());
                    push_str(&mut m, "` expects ");
                    push_decimal(&mut m, arity as u64);
                    push_str(&mut m, " argument(s) but got ");
                    push_decimal(&mut m, args.len() as u64);
                    proof {
                        assert(m@ =~= arity_msg(name@, arity as nat, args.len() as nat));
                    }
                    push_diag(diags, Severity::Warning, m);
                }
            }
            let ghost mid = diags_view(diags@);
            check_arities_all(args, table, diags);
            proof {
                assert(diags_view(diags@) =~= start + (mid.skip(start.len() as int) + arity_diags_all(
                    terms_view(args@),
                    tv,
                )));
                assert(mid.skip(start.len() as int) =~= match last_info(tv, name@) {
                    Some(info) => if args@.len() > 0 && args@.len() != info.arity {
                        seq![DiagV { severity: Severity::Warning, msg: arity_msg(name@, info.arity, args@.len()) }]
                    } else {
                        Seq::<DiagV>::empty()
                    },
                    None => Seq::<DiagV>::empty(),
                });
            }
        },
        Term::App(f, args) => {
            check_arities(f, table, diags);
            check_arities_all(args, table, diags);
            proof {
                assert(diags_view(diags@) =~= start + (arity_diags((**f)@, tv) + arity_diags_all(
                    terms_view(args@),
                    tv,
                )));
            }
        },
        Term::Lam(_, body) => {
            check_arities(body, table, diags);
        },
        Term::Kosha(es) => {
            check_arities_entries(es, table, diags);
        },
        _ => {
            proof {
                assert(diags_view(diags@) =~= start + Seq::<DiagV>::empty());
            }
        },
    }
}

fn check_arities_all(ts: &Vec<Term>, table: &Vec<CtorEntry>, diags: &mut Vec<Diagnostic>)
    ensures
        diags_view(final(diags)@) == diags_view(old(diags)@) + arity_diags_all(
            terms_view(ts@),
            table_view(table@),
        ),
    decreases ts,
{
    let ghost start = diags_view(diags@);
    let ghost tv = terms_view(ts@);
    let ghost infos = table_view(table@);
    proof {
        lemma_terms_view(ts@);
    }
    let mut i: usize = 0;
    proof {
        assert(tv.take(0) =~= Seq::<TermV>::empty());
        assert(start + arity_diags_all(tv.take(0), infos) =~= start);
    }
    while i < ts.len()
        invariant
            i <= ts.len(),
            tv == terms_view(ts@),
            infos == table_view(table@),
            tv.len() == ts.len(),
            forall|j: int| 0 <= j < ts.len() ==> #[trigger] tv[j] == ts@[j]@,
            diags_view(diags@) == start + arity_diags_all(tv.take(i as int), infos),
        decreases ts.len() - i,
    {
        check_arities(&ts[i], table, diags);
        proof {
            assert(tv.take(i + 1).drop_last() =~= tv.take(i as int));
            assert(tv.take(i + 1).last() == tv[i as int]);
            assert(diags_view(diags@) =~= start + arity_diags_all(tv.take(i + 1), infos));
        }
        i = i + 1;
    }
    proof {
        assert(tv.take(i as int) =~= tv);
    }
}

fn check_arities_entries(es: &Vec<(Term, Term)>, table: &Vec<CtorEntry>, diags: &mut Vec<Diagnostic>)
    ensures
        diags_view(final(diags)@) == diags_view(old(diags)@) + arity_diags_entries(
            entries_view(es@),
            table_view(table@),
        ),
    decreases es,
{
    let ghost start = diags_view(diags@);
    let ghost ev = entries_view(es@);
    let ghost infos = table_view(table@);
    proof {
        lemma_entries_view(es@);
    }
    let mut i: usize = 0;
    proof {
        assert(ev.take(0) =~= Seq::<(TermV, TermV)>::empty());
        assert(start + arity_diags_entries(ev.take(0), infos) =~= start);
    }
    while i < es.len()
        invariant
            i <= es.len(),
            ev == entries_view(es@),
            infos == table_view(table@),
            ev.len() == es.len(),
            forall|j: int| 0 <= j < es.len() ==> #[trigger] ev[j] == (es@[j].0@, es@[j].1@),
            diags_view(diags@) == start + arity_diags_entries(ev.take(i as int), infos),
        decreases es.len() - i,
    {
        check_arities(&es[i].0, table, diags);
        check_arities(&es[i].1, table, diags);
        proof {
            assert(ev.take(i + 1).drop_last() =~= ev.take(i as int));
            assert(ev.take(i + 1).last() == ev[i as int]);
            assert(diags_view(diags@) =~= start + arity_diags_entries(ev.take(i + 1), infos));
        }
        i = i + 1;
    }
    proof {
        assert(ev.take(i as int) =~= ev);
    }
}

// ---------------------------------------------------------------------------
// Unbound variables in rules and प्रयोगs.
/// How a rule is named in messages: its head symbol, or else the printed
/// left-hand side.
pub open spec fn head_text(lhs: TermV) -> Seq<char> {
    match lhs {
        TermV::Sym(n, _) => n,
        _ => show_spec(lhs, true),
    }
}

/// The variables a rule uses in its guard or right-hand side without its
/// left-hand side binding them: sorted, without duplicates.
pub open spec fn rule_unbound(r: RuleV) -> Seq<Seq<char>> {
    let bound = pattern_vars(r.lhs).to_set();
    let in_guard = match r.guard {
        Some(g) => free_uses(g, bound),
        None => Seq::empty(),
    };
    sort_dedup(in_guard + free_uses(r.rhs, bound))
}

/// The error for variable `v` used unbound in rule `head`.
pub open spec fn rule_unbound_msg(head: Seq<char>, v: Seq<char>) -> Seq<char> {
    "rule `"@ + head + "`: variable ?"@ + v + " is used but never bound"@
}

/// The error for variable `v` unbound in the `n`th प्रयोग (from 1).
pub open spec fn prayoga_unbound_msg(n: nat, v: Seq<char>) -> Seq<char> {
    "प्रयोग #"@ + nat_to_decimal(n) + ": variable ?"@ + v + " is unbound"@
}

/// The findings for one rule: its unbound variables, then arity warnings
/// for its left- and right-hand sides.
pub open spec fn rule_diags(r: RuleV, infos: Seq<CtorInfo>) -> Seq<DiagV> {
    rule_unbound(r).map_values(
        |v: Seq<char>| DiagV { severity: Severity::Error, msg: rule_unbound_msg(head_text(r.lhs), v) },
    ) + arity_diags(r.lhs, infos) + arity_diags(r.rhs, infos)
}

pub open spec fn rules_diags(rs: Seq<RuleV>, infos: Seq<CtorInfo>) -> Seq<DiagV>
    decreases rs.len(),
{
    if rs.len() == 0 {
        Seq::empty()
    } else {
        rules_diags(rs.drop_last(), infos) + rule_diags(rs.last(), infos)
    }
}

/// The findings for the `n`th प्रयोग (from 1).
pub open spec fn prayoga_diags(n: nat, p: TermV, infos: Seq<CtorInfo>) -> Seq<DiagV> {
    sort_dedup(free_uses(p, Set::empty())).map_values(
        |v: Seq<char>| DiagV { severity: Severity::Error, msg: prayoga_unbound_msg(n, v) },
    ) + arity_diags(p, infos)
}

pub open spec fn prayogas_diags(ps: Seq<TermV>, infos: Seq<CtorInfo>) -> Seq<DiagV>
    decreases ps.len(),
{
    if ps.len() == 0 {
        Seq::empty()
    } else {
        prayogas_diags(ps.drop_last(), infos) + prayoga_diags(ps.len(), ps.last(), infos)
    }
}

/// A rule's head: the symbol name, or else the printed left-hand side.
fn rule_head(lhs: &Term) -> (r: String)
    ensures
        r@ == head_text(lhs@),
{
    match lhs {
        Term::Sym(n, _) => n.clone(),
        _ => show(lhs, true),
    }
}

/// The error for unbound `v`: in the rule named `head`, or else in the
/// `n`th प्रयोग.
pub open spec fn unbound_diag(prayoga: Option<usize>, head: Seq<char>, v: Seq<char>) -> DiagV {
    match prayoga {
        None => DiagV { severity: Severity::Error, msg: rule_unbound_msg(head, v) },
        Some(n) => DiagV { severity: Severity::Error, msg: prayoga_unbound_msg(n as nat, v) },
    }
}

/// Report each unbound name: for a rule named `head`, or else for the
/// `n`th प्रयोग.
fn push_unbound(
    diags: &mut Vec<Diagnostic>,
    names: &Vec<String>,
    head: &str,
    prayoga: Option<usize>,
)
    ensures
        diags_view(final(diags)@) == diags_view(old(diags)@) + match prayoga {
            None => names_view(names@).map_values(
                |v: Seq<char>| DiagV { severity: Severity::Error, msg: rule_unbound_msg(head@, v) },
            ),
            Some(n) => names_view(names@).map_values(
                |v: Seq<char>| DiagV { severity: Severity::Error, msg: prayoga_unbound_msg(n as nat, v) },
            ),
        },
{
    let ghost start = diags_view(diags@);
    let mut i: usize = 0;
    while i < names.len()
        invariant
            i <= names.len(),
            diags_view(diags@) == start + names_view(names@).take(i as int).map_values(|w: Seq<char>| unbound_diag(prayoga, head@, w)),
        decreases names.len() - i,
    {
        let mut m = String::new();
        let ghost v = names@[i as int]@;
        match prayoga {
            None => {
                push_str(&mut m, "rule `");
                push_str(&mut m, head);
                push_str(&mut m, "`: variable ?");
                push_str(&mut m, names[i].as_str());
                push_str(&mut m, " is used but never bound");
                proof {
                    assert(m@ =~= rule_unbound_msg(head@, v));
                }
            },
            Some(n) => {
                push_str(&mut m, "प्रयोग #");
                push_decimal(&mut m, n as u64);
                push_str(&mut m, ": variable ?");
                push_str(&mut m, names[i].as_str());
                push_str(&mut m, " is unbound");
                proof {
                    assert(m@ =~= prayoga_unbound_msg(n as nat, v));
                }
            },
        }
        proof {
            assert(unbound_diag(prayoga, head@, v) == DiagV { severity: Severity::Error, msg: m@ });
        }
        let ghost before = diags_view(diags@);
        push_diag(diags, Severity::Error, m);
        proof {
            let t = names_view(names@).take(i as int);
            assert(names_view(names@).take(i + 1) =~= t.push(v));
            assert(t.push(v).map_values(|w: Seq<char>| unbound_diag(prayoga, head@, w)) =~= t.map_values(|w: Seq<char>| unbound_diag(prayoga, head@, w)).push(unbound_diag(prayoga, head@, v)));
            assert(diags_view(diags@) =~= start + names_view(names@).take(i + 1).map_values(|w: Seq<char>| unbound_diag(prayoga, head@, w)));
        }
        i = i + 1;
    }
    proof {
        assert(names_view(names@).take(i as int) =~= names_view(names@));
        assert(names_view(names@).map_values(|w: Seq<char>| unbound_diag(prayoga, head@, w)) =~= match prayoga {
            None => names_view(names@).map_values(
                |v: Seq<char>| DiagV { severity: Severity::Error, msg: rule_unbound_msg(head@, v) },
            ),
            Some(n) => names_view(names@).map_values(
                |v: Seq<char>| DiagV { severity: Severity::Error, msg: prayoga_unbound_msg(n as nat, v) },
            ),
        });
    }
}

/// Report the findings for one rule.
fn check_rule(r: &Rule, table: &Vec<CtorEntry>, diags: &mut Vec<Diagnostic>)
    ensures
        diags_view(final(diags)@) == diags_view(old(diags)@) + rule_diags(r@, table_view(table@)),
{
    let ghost start = diags_view(diags@);
    let head = rule_head(&r.lhs);
    let mut bound: Vec<String> = Vec::new();
    proof {
        assert(names_view(bound@) =~= Seq::<Seq<char>>::empty());
    }
    collect_pattern_vars(&r.lhs, &mut bound);
    proof {
        assert(names_view(bound@) =~= pattern_vars(r.lhs@));
    }
    let mut uses: Vec<String> = Vec::new();
    proof {
        assert(names_view(uses@) =~= Seq::<Seq<char>>::empty());
    }
    if let Some(g) = &r.guard {
        free_unbound(g, &bound, &mut uses);
    }
    let ghost in_guard = names_view(uses@);
    free_unbound(&r.rhs, &bound, &mut uses);
    proof {
        let b = pattern_vars(r.lhs@).to_set();
        match r@.guard {
            Some(g) => {
                assert(in_guard =~= free_uses(g, b));
            },
            None => {
                assert(in_guard =~= Seq::<Seq<char>>::empty());
            },
        }
    }
    let names = sort_names(uses);
    push_unbound(diags, &names, head.as_str(), None);
    let ghost mid = diags_view(diags@);
    check_arities(&r.lhs, table, diags);
    check_arities(&r.rhs, table, diags);
    proof {
        assert(diags_view(diags@) =~= start + rule_diags(r@, table_view(table@)));
    }
}

/// Report the findings for the `n`th प्रयोग.
fn check_prayoga(p: &Term, n: usize, table: &Vec<CtorEntry>, diags: &mut Vec<Diagnostic>)
    ensures
        diags_view(final(diags)@) == diags_view(old(diags)@) + prayoga_diags(
            n as nat,
            p@,
            table_view(table@),
        ),
{
    let ghost start = diags_view(diags@);
    let bound: Vec<String> = Vec::new();
    let mut uses: Vec<String> = Vec::new();
    proof {
        assert(names_view(uses@) =~= Seq::<Seq<char>>::empty());
        assert(name_set(bound@) =~= Set::<Seq<char>>::empty());
    }
    free_unbound(p, &bound, &mut uses);
    proof {
        assert(names_view(uses@) =~= free_uses(p@, Set::empty()));
    }
    let names = sort_names(uses);
    push_unbound(diags, &names, "", Some(n));
    check_arities(p, table, diags);
    proof {
        assert(diags_view(diags@) =~= start + prayoga_diags(n as nat, p@, table_view(table@)));
    }
}

// ---------------------------------------------------------------------------
// Exhaustiveness of one-argument functions.
/// The function a rule defines, if its left-hand side is a symbol with
/// exactly one argument.
pub open spec fn single_arg_head(r: RuleV) -> Option<Seq<char>> {
    match r.lhs {
        TermV::Sym(n, a) => if a.len() == 1 {
            Some(n)
        } else {
            None
        },
        _ => None,
    }
}

/// The one-argument functions the rules define, in order of first clause.
pub open spec fn function_order(rs: Seq<RuleV>) -> Seq<Seq<char>>
    decreases rs.len(),
{
    if rs.len() == 0 {
        Seq::empty()
    } else {
        let g = function_order(rs.drop_last());
        match single_arg_head(rs.last()) {
            Some(n) => if g.contains(n) {
                g
            } else {
                g.push(n)
            },
            None => g,
        }
    }
}

/// The first argument of a symbol application.
pub open spec fn first_arg(t: TermV) -> TermV {
    match t {
        TermV::Sym(_, a) => a[0],
        _ => t,
    }
}

/// Walk `f`'s one-argument clauses in order, stopping at the first guard
/// or non-constructor pattern (a catch-all). The result says whether a
/// catch-all was met, and lists the declared constructors matched before it.
pub open spec fn scan_clauses(rs: Seq<RuleV>, f: Seq<char>, infos: Seq<CtorInfo>) -> (bool, Seq<Seq<char>>)
    decreases rs.len(),
{
    if rs.len() == 0 {
        (false, Seq::empty())
    } else {
        let prev = scan_clauses(rs.drop_last(), f, infos);
        let r = rs.last();
        if prev.0 || single_arg_head(r) != Some(f) {
            prev
        } else if r.guard is Some {
            (true, prev.1)
        } else {
            match first_arg(r.lhs) {
                TermV::Sym(c, _) => if last_info(infos, c) is Some {
                    (false, prev.1.push(c))
                } else {
                    prev
                },
                _ => (true, prev.1),
            }
        }
    }
}

/// The saṃjñā that declares constructor `c` last.
pub open spec fn owner_of(infos: Seq<CtorInfo>, c: Seq<char>) -> Seq<char> {
    match last_info(infos, c) {
        Some(info) => info.owner,
        None => Seq::empty(),
    }
}

/// The constructors declared under saṃjñā `sname` that are not covered.
pub open spec fn missing_ctors(infos: Seq<CtorInfo>, sname: Seq<char>, covered: Seq<Seq<char>>) -> Seq<Seq<char>>
    decreases infos.len(),
{
    if infos.len() == 0 {
        Seq::empty()
    } else {
        let m = missing_ctors(infos.drop_last(), sname, covered);
        let e = infos.last();
        if e.owner == sname && !covered.contains(e.ctor) {
            m.push(e.ctor)
        } else {
            m
        }
    }
}

/// The warning that `f` may miss constructors of `sname`.
pub open spec fn exhaustiveness_msg(f: Seq<char>, sname: Seq<char>, missing: Seq<Seq<char>>) -> Seq<char> {
    "function `"@ + f + "` may be non-exhaustive over "@ + sname + ": no clause for "@ + join(
        missing,
        comma_sep(),
    )
}

/// The exhaustiveness finding for function `f`, if any: its clauses
/// match constructors, all of one saṃjñā, with no catch-all, and miss some.
pub open spec fn exhaustiveness_diag(f: Seq<char>, rs: Seq<RuleV>, infos: Seq<CtorInfo>) -> Seq<DiagV> {
    let sc = scan_clauses(rs, f, infos);
    let covered = sc.1;
    if sc.0 || covered.len() == 0 {
        Seq::empty()
    } else {
        let sname = owner_of(infos, covered[0]);
        if exists|i: int| 0 <= i < covered.len() && owner_of(infos, covered[i]) != sname {
            Seq::empty()
        } else {
            let missing = sort_dedup(missing_ctors(infos, sname, covered));
            if missing.len() == 0 {
                Seq::empty()
            } else {
                seq![DiagV { severity: Severity::Warning, msg: exhaustiveness_msg(f, sname, missing) }]
            }
        }
    }
}

pub open spec fn exhaustiveness_diags(fs: Seq<Seq<char>>, rs: Seq<RuleV>, infos: Seq<CtorInfo>) -> Seq<DiagV>
    decreases fs.len(),
{
    if fs.len() == 0 {
        Seq::empty()
    } else {
        exhaustiveness_diags(fs.drop_last(), rs, infos) + exhaustiveness_diag(fs.last(), rs, infos)
    }
}

/// Everything `check` reports: per rule, then per प्रयोग, then per
/// one-argument function.
pub open spec fn check_spec(context: ProgramV, target: ProgramV) -> Seq<DiagV> {
    let infos = ctor_infos(context.samjnas);
    rules_diags(target.rules, infos) + prayogas_diags(target.prayogas, infos) + exhaustiveness_diags(
        function_order(target.rules),
        target.rules,
        infos,
    ) + classes_diags(target.classes, context.inventory)
}

/// The message for a class whose pratyāhāra cannot be derived.
pub open spec fn underivable_msg(name: Seq<char>, start: Seq<char>, marker: Seq<char>) -> Seq<char> {
    "गण "@ + name + ": pratyāhāra ("@ + start + ", "@ + marker
        + ") cannot be derived from the śivasūtra inventory"@
}

/// The finding on one class: an error where it is declared by a
/// pratyāhāra that the inventory cannot derive.
pub open spec fn class_diags(c: ClassV, inv: Seq<SivaSutraV>) -> Seq<DiagV> {
    match c.span {
        Some(p) => if pratyahara_spec(inv, p.start, p.marker) is None {
            seq![DiagV { severity: Severity::Error, msg: underivable_msg(c.name, p.start, p.marker) }]
        } else {
            Seq::empty()
        },
        None => Seq::empty(),
    }
}

/// The findings on the classes, in order.
pub open spec fn classes_diags(cs: Seq<ClassV>, inv: Seq<SivaSutraV>) -> Seq<DiagV>
    decreases cs.len(),
{
    if cs.len() == 0 {
        Seq::empty()
    } else {
        classes_diags(cs.drop_last(), inv) + class_diags(cs.last(), inv)
    }
}

/// Report a class whose pratyāhāra cannot be derived.
fn check_class(c: &crate::krama::Class, inv: &Vec<crate::sivasutra::SivaSutra>, diags: &mut Vec<Diagnostic>)
    ensures
        diags_view(final(diags)@) == diags_view(old(diags)@) + class_diags(
            c@,
            crate::sivasutra::inventory_view(inv@),
        ),
{
    let ghost before = diags@;
    match &c.span {
        Some(p) => {
            match pratyahara(inv, p.start.as_str(), p.marker.as_str()) {
                Some(_) => {
                    assert(diags_view(diags@) =~= diags_view(before) + class_diags(
                        c@,
                        crate::sivasutra::inventory_view(inv@),
                    ));
                },
                None => {
                    let mut msg = "गण ".to_owned();
                    push_str(&mut msg, c.name.as_str());
                    push_str(&mut msg, ": pratyāhāra (");
                    push_str(&mut msg, p.start.as_str());
                    push_str(&mut msg, ", ");
                    push_str(&mut msg, p.marker.as_str());
                    push_str(&mut msg, ") cannot be derived from the śivasūtra inventory");
                    let d = Diagnostic::error(msg);
                    diags.push(d);
                    proof {
                        reveal_strlit("गण ");
                        reveal_strlit(": pratyāhāra (");
                        reveal_strlit(", ");
                        reveal_strlit(") cannot be derived from the śivasūtra inventory");
                        assert(d@.msg =~= underivable_msg(c@.name, p@.start, p@.marker));
                        assert(diags_view(diags@) =~= diags_view(before).push(d@));
                    }
                },
            }
        },
        None => {
            assert(diags_view(diags@) =~= diags_view(before) + class_diags(
                c@,
                crate::sivasutra::inventory_view(inv@),
            ));
        },
    }
}

/// The function a rule defines, if it has exactly one argument.
fn rule_function(r: &Rule) -> (res: Option<&String>)
    ensures
        match res {
            Some(n) => single_arg_head(r@) == Some(n@),
            None => single_arg_head(r@) == None::<Seq<char>>,
        },
{
    match &r.lhs {
        Term::Sym(n, a) => {
            proof {
                lemma_terms_view(a@);
            }
            if a.len() == 1 {
                Some(n)
            } else {
                None
            }
        },
        _ => None,
    }
}

/// The one-argument functions defined by the rules, in order of first clause.
fn function_names(rules: &Vec<Rule>) -> (r: Vec<String>)
    ensures
        names_view(r@) == function_order(rules_view(rules@)),
{
    let ghost rv = rules_view(rules@);
    let mut out: Vec<String> = Vec::new();
    let mut i: usize = 0;
    proof {
        assert(rv.take(0) =~= Seq::<RuleV>::empty());
        assert(names_view(out@) =~= Seq::<Seq<char>>::empty());
    }
    while i < rules.len()
        invariant
            i <= rules.len(),
            rv == rules_view(rules@),
            names_view(out@) == function_order(rv.take(i as int)),
        decreases rules.len() - i,
    {
        proof {
            assert(rv.take(i + 1).drop_last() =~= rv.take(i as int));
            assert(rv.take(i + 1).last() == rules@[i as int]@);
        }
        if let Some(n) = rule_function(&rules[i]) {
            if !contains_name(&out, n.as_str()) {
                let ghost before = names_view(out@);
                out.push(n.clone());
                proof {
                    assert(names_view(out@) =~= before.push(n@));
                }
            }
        }
        i = i + 1;
    }
    proof {
        assert(rv.take(i as int) =~= rv);
    }
    out
}

/// Walk `f`'s one-argument clauses; see `scan_clauses`.
fn scan_function(rules: &Vec<Rule>, f: &str, table: &Vec<CtorEntry>) -> (r: (bool, Vec<String>))
    ensures
        (r.0, names_view(r.1@)) == scan_clauses(rules_view(rules@), f@, table_view(table@)),
        forall|k: int| 0 <= k < r.1.len() ==> #[trigger] last_info(table_view(table@), r.1@[k]@) is Some,
{
    let ghost rv = rules_view(rules@);
    let ghost tv = table_view(table@);
    let mut total = false;
    let mut covered: Vec<String> = Vec::new();
    let mut i: usize = 0;
    proof {
        assert(rv.take(0) =~= Seq::<RuleV>::empty());
        assert(names_view(covered@) =~= Seq::<Seq<char>>::empty());
    }
    while i < rules.len()
        invariant
            i <= rules.len(),
            rv == rules_view(rules@),
            tv == table_view(table@),
            (total, names_view(covered@)) == scan_clauses(rv.take(i as int), f@, tv),
            forall|k: int| 0 <= k < covered.len() ==> #[trigger] last_info(tv, covered@[k]@) is Some,
        decreases rules.len() - i,
    {
        let r = &rules[i];
        proof {
            assert(rv.take(i + 1).drop_last() =~= rv.take(i as int));
            assert(rv.take(i + 1).last() == r@);
        }
        if !total {
            if let Some(n) = rule_function(r) {
                if str_eq(n.as_str(), f) {
                    if r.guard.is_some() {
                        total = true;
                    } else if let Term::Sym(_, a) = &r.lhs {
                        proof {
                            lemma_terms_view(a@);
                        }
                        match &a[0] {
                            Term::Sym(c, _) => {
                                if lookup_ctor(table, c.as_str()).is_some() {
                                    let ghost before = names_view(covered@);
                                    covered.push(c.clone());
                                    proof {
                                        assert(names_view(covered@) =~= before.push(c@));
                                    }
                                }
                            },
                            _ => {
                                total = true;
                            },
                        }
                    }
                }
            }
        }
        i = i + 1;
    }
    proof {
        assert(rv.take(i as int) =~= rv);
    }
    (total, covered)
}

/// The constructors of saṃjñā `sname` not in `covered`, in declaration order.
fn missing_constructors(table: &Vec<CtorEntry>, sname: &str, covered: &Vec<String>) -> (r: Vec<String>)
    ensures
        names_view(r@) == missing_ctors(table_view(table@), sname@, names_view(covered@)),
{
    let ghost tv = table_view(table@);
    let mut out: Vec<String> = Vec::new();
    let mut i: usize = 0;
    proof {
        assert(tv.take(0) =~= Seq::<CtorInfo>::empty());
        assert(names_view(out@) =~= Seq::<Seq<char>>::empty());
    }
    while i < table.len()
        invariant
            i <= table.len(),
            tv == table_view(table@),
            names_view(out@) == missing_ctors(tv.take(i as int), sname@, names_view(covered@)),
        decreases table.len() - i,
    {
        proof {
            assert(tv.take(i + 1).drop_last() =~= tv.take(i as int));
            assert(tv.take(i + 1).last() == table@[i as int]@);
        }
        let e = &table[i];
        if str_eq(e.owner.as_str(), sname) && !contains_name(covered, e.ctor.as_str()) {
            let ghost before = names_view(out@);
            out.push(e.ctor.clone());
            proof {
                assert(names_view(out@) =~= before.push(e.ctor@));
            }
        }
        i = i + 1;
    }
    proof {
        assert(tv.take(i as int) =~= tv);
    }
    out
}

/// Report the exhaustiveness finding for function `f`, if any.
fn check_function(f: &String, rules: &Vec<Rule>, table: &Vec<CtorEntry>, diags: &mut Vec<Diagnostic>)
    ensures
        diags_view(final(diags)@) == diags_view(old(diags)@) + exhaustiveness_diag(
            f@,
            rules_view(rules@),
            table_view(table@),
        ),
{
    let ghost start = diags_view(diags@);
    let ghost tv = table_view(table@);
    let (total, covered) = scan_function(rules, f.as_str(), table);
    let ghost cv = names_view(covered@);
    if total || covered.len() == 0 {
        proof {
            assert(diags_view(diags@) =~= start + Seq::<DiagV>::empty());
        }
        return;
    }
    let first = lookup_ctor(table, covered[0].as_str());
    let sname: &String = match first {
        Some(k) => &table[k].owner,
        None => {
            proof {
                assert(last_info(tv, covered@[0]@) is Some);
            }
            return;
        },
    };
    proof {
        assert(cv[0] == covered@[0]@);
        assert(sname@ == owner_of(tv, cv[0]));
    }
    let mut j: usize = 0;
    while j < covered.len()
        invariant
            j <= covered.len(),
            cv == names_view(covered@),
            tv == table_view(table@),
            diags_view(diags@) == start,
            start == diags_view(old(diags)@),
            (total, cv) == scan_clauses(rules_view(rules@), f@, tv),
            !total,
            cv.len() > 0,
            sname@ == owner_of(tv, cv[0]),
            forall|k: int| 0 <= k < covered.len() ==> #[trigger] last_info(tv, covered@[k]@) is Some,
            forall|k: int| 0 <= k < j ==> owner_of(tv, #[trigger] cv[k]) == sname@,
        decreases covered.len() - j,
    {
        proof {
            assert(cv[j as int] == covered@[j as int]@);
        }
        match lookup_ctor(table, covered[j].as_str()) {
            Some(k) => {
                if !str_eq(table[k].owner.as_str(), sname.as_str()) {
                    proof {
                        assert(owner_of(tv, cv[j as int]) == table@[k as int].owner@);
                        assert(owner_of(tv, cv[j as int]) != sname@);
                        assert(diags_view(diags@) =~= start + Seq::<DiagV>::empty());
                    }
                    return;
                }
            },
            None => {
                proof {
                    assert(last_info(tv, covered@[j as int]@) is Some);
                }
                return;
            },
        }
        j = j + 1;
    }
    let missing = missing_constructors(table, sname.as_str(), &covered);
    let missing = sort_names(missing);
    if missing.len() == 0 {
        proof {
            assert(diags_view(diags@) =~= start + Seq::<DiagV>::empty());
        }
        return;
    }
    let mut m = String::new();
    push_str(&mut m, "function `");
    push_str(&mut m, f.as_str());
    push_str(&mut m, "` may be non-exhaustive over ");
    push_str(&mut m, sname.as_str());
    push_str(&mut m, ": no clause for ");
    let joined = join_comma(&missing);
    push_str(&mut m, joined.as_str());
    proof {
        assert(m@ =~= exhaustiveness_msg(f@, sname@, names_view(missing@)));
    }
    push_diag(diags, Severity::Warning, m);
}

/// Check `target`'s declarations, using `context` (target merged with the
/// prelude and imports) for the saṃjñās that declare constructors.
/// Findings come rule by rule, then प्रयोग by प्रयोग, then function by
/// function in order of each one-argument function's first clause.
pub fn check(context: &Program, target: &Program) -> (r: Vec<Diagnostic>)
    ensures
        diags_view(r@) == check_spec(context@, target@),
{
    let mut diags: Vec<Diagnostic> = Vec::new();
    let table = constructor_table(context);
    let ghost infos = ctor_infos(context@.samjnas);
    let ghost rv = target@.rules;
    let ghost pv = target@.prayogas;
    let mut i: usize = 0;
    proof {
        assert(rv.take(0) =~= Seq::<RuleV>::empty());
        assert(diags_view(diags@) =~= Seq::<DiagV>::empty());
    }
    while i < target.rules.len()
        invariant
            i <= target.rules.len(),
            rv == target@.rules,
            rv.len() == target.rules.len(),
            infos == table_view(table@),
            diags_view(diags@) == rules_diags(rv.take(i as int), infos),
        decreases target.rules.len() - i,
    {
        check_rule(&target.rules[i], &table, &mut diags);
        proof {
            assert(rv.take(i + 1).drop_last() =~= rv.take(i as int));
            assert(rv.take(i + 1).last() == target.rules@[i as int]@);
        }
        i = i + 1;
    }
    proof {
        assert(rv.take(i as int) =~= rv);
        lemma_terms_view(target.prayogas@);
        assert(pv.take(0) =~= Seq::<TermV>::empty());
        assert(diags_view(diags@) =~= rules_diags(rv, infos) + prayogas_diags(pv.take(0), infos));
    }
    let mut k: usize = 0;
    while k < target.prayogas.len()
        invariant
            k <= target.prayogas.len(),
            pv == target@.prayogas,
            pv.len() == target.prayogas.len(),
            forall|j: int| 0 <= j < pv.len() ==> #[trigger] pv[j] == target.prayogas@[j]@,
            infos == table_view(table@),
            diags_view(diags@) == rules_diags(rv, infos) + prayogas_diags(pv.take(k as int), infos),
        decreases target.prayogas.len() - k,
    {
        check_prayoga(&target.prayogas[k], k + 1, &table, &mut diags);
        proof {
            let t = pv.take(k + 1);
            assert(t.drop_last() =~= pv.take(k as int));
            assert(t.last() == pv[k as int]);
            assert(t.len() == k + 1);
            assert(diags_view(diags@) =~= rules_diags(rv, infos) + prayogas_diags(t, infos));
        }
        k = k + 1;
    }
    proof {
        assert(pv.take(k as int) =~= pv);
    }
    let fs = function_names(&target.rules);
    let ghost fv = names_view(fs@);
    let ghost before = diags_view(diags@);
    let mut n: usize = 0;
    proof {
        assert(fv.take(0) =~= Seq::<Seq<char>>::empty());
        assert(diags_view(diags@) =~= before + exhaustiveness_diags(fv.take(0), rv, infos));
    }
    while n < fs.len()
        invariant
            n <= fs.len(),
            fv == names_view(fs@),
            rv == rules_view(target.rules@),
            infos == table_view(table@),
            diags_view(diags@) == before + exhaustiveness_diags(fv.take(n as int), rv, infos),
        decreases fs.len() - n,
    {
        check_function(&fs[n], &target.rules, &table, &mut diags);
        proof {
            let t = fv.take(n + 1);
            assert(t.drop_last() =~= fv.take(n as int));
            assert(t.last() == fs@[n as int]@);
            assert(diags_view(diags@) =~= before + exhaustiveness_diags(t, rv, infos));
        }
        n = n + 1;
    }
    proof {
        assert(fv.take(n as int) =~= fv);
    }
    let ghost cv = target@.classes;
    let ghost iv = context@.inventory;
    let ghost before2 = diags_view(diags@);
    let mut m: usize = 0;
    proof {
        assert(cv.take(0) =~= Seq::<ClassV>::empty());
        assert(diags_view(diags@) =~= before2 + classes_diags(cv.take(0), iv));
    }
    while m < target.classes.len()
        invariant
            m <= target.classes.len(),
            cv == target@.classes,
            cv.len() == target.classes.len(),
            iv == context@.inventory,
            diags_view(diags@) == before2 + classes_diags(cv.take(m as int), iv),
        decreases target.classes.len() - m,
    {
        check_class(&target.classes[m], &context.inventory, &mut diags);
        proof {
            let t = cv.take(m + 1);
            assert(t.drop_last() =~= cv.take(m as int));
            assert(t.last() == target.classes@[m as int]@);
            assert(diags_view(diags@) =~= before2 + classes_diags(t, iv));
        }
        m = m + 1;
    }
    proof {
        assert(cv.take(m as int) =~= cv);
    }
    diags
}

// ---------------------------------------------------------------------------
// Every misused constructor is reported.
/// `s` occurs in `t`: it is `t`, or occurs in an argument, in an applied
/// function, in a lambda's body or in a map entry.
pub open spec fn occurs_in(s: TermV, t: TermV) -> bool
    decreases t,
{
    s == t || match t {
        TermV::Sym(_, args) => occurs_in_any(s, args),
        TermV::App(f, args) => occurs_in(s, *f) || occurs_in_any(s, args),
        TermV::Lam(_, body) => occurs_in(s, *body),
        TermV::Kosha(es) => occurs_in_entries(s, es),
        _ => false,
    }
}

/// `s` occurs in one of `ts`.
pub open spec fn occurs_in_any(s: TermV, ts: Seq<TermV>) -> bool
    decreases ts,
{
    if ts.len() == 0 {
        false
    } else {
        occurs_in_any(s, ts.drop_last()) || occurs_in(s, ts.last())
    }
}

/// `s` occurs in a key or a value of `es`.
pub open spec fn occurs_in_entries(s: TermV, es: Seq<(TermV, TermV)>) -> bool
    decreases es,
{
    if es.len() == 0 {
        false
    } else {
        occurs_in_entries(s, es.drop_last()) || occurs_in(s, es.last().0) || occurs_in(s, es.last().1)
    }
}

/// `s` applies a declared constructor to some arguments, but not to as
/// many as it was declared with.
pub open spec fn misused(s: TermV, infos: Seq<CtorInfo>) -> bool {
    &&& s is Sym
    &&& last_info(infos, s->Sym_0) is Some
    &&& s->Sym_1.len() > 0
    &&& s->Sym_1.len() != last_info(infos, s->Sym_0)->Some_0.arity
}

/// The warning that names a misused constructor, its declared arity and
/// the number of arguments it got.
pub open spec fn misuse_warning(s: TermV, infos: Seq<CtorInfo>) -> DiagV {
    DiagV {
        severity: Severity::Warning,
        msg: arity_msg(s->Sym_0, last_info(infos, s->Sym_0)->Some_0.arity, s->Sym_1.len()),
    }
}

proof fn lemma_concat_contains(a: Seq<DiagV>, b: Seq<DiagV>, x: DiagV)
    ensures
        (a.contains(x) || b.contains(x)) ==> (a + b).contains(x),
{
    if a.contains(x) {
        let i = choose|i: int| 0 <= i < a.len() && a[i] == x;
        assert((a + b)[i] == x);
    } else if b.contains(x) {
        let i = choose|i: int| 0 <= i < b.len() && b[i] == x;
        assert((a + b)[a.len() + i] == x);
    }
}

proof fn lemma_misuse_in_term(s: TermV, t: TermV, infos: Seq<CtorInfo>)
    requires
        misused(s, infos),
    ensures
        occurs_in(s, t) ==> arity_diags(t, infos).contains(misuse_warning(s, infos)),
    decreases t,
{
    let w = misuse_warning(s, infos);
    if s == t {
        let own = seq![w];
        assert(own[0] == w);
        lemma_concat_contains(own, arity_diags_all(s->Sym_1, infos), w);
    }
    match t {
        TermV::Sym(n, args) => {
            lemma_misuse_in_all(s, args, infos);
            let own = match last_info(infos, n) {
                Some(info) => if args.len() > 0 && args.len() != info.arity {
                    seq![DiagV { severity: Severity::Warning, msg: arity_msg(n, info.arity, args.len()) }]
                } else {
                    Seq::empty()
                },
                None => Seq::empty(),
            };
            lemma_concat_contains(own, arity_diags_all(args, infos), w);
        },
        TermV::App(f, args) => {
            lemma_misuse_in_term(s, *f, infos);
            lemma_misuse_in_all(s, args, infos);
            lemma_concat_contains(arity_diags(*f, infos), arity_diags_all(args, infos), w);
        },
        TermV::Lam(_, body) => {
            lemma_misuse_in_term(s, *body, infos);
        },
        TermV::Kosha(es) => {
            lemma_misuse_in_entries(s, es, infos);
        },
        _ => {},
    }
}

proof fn lemma_misuse_in_all(s: TermV, ts: Seq<TermV>, infos: Seq<CtorInfo>)
    requires
        misused(s, infos),
    ensures
        occurs_in_any(s, ts) ==> arity_diags_all(ts, infos).contains(misuse_warning(s, infos)),
    decreases ts,
{
    if ts.len() > 0 {
        lemma_misuse_in_all(s, ts.drop_last(), infos);
        lemma_misuse_in_term(s, ts.last(), infos);
        lemma_concat_contains(
            arity_diags_all(ts.drop_last(), infos),
            arity_diags(ts.last(), infos),
            misuse_warning(s, infos),
        );
    }
}

proof fn lemma_misuse_in_entries(s: TermV, es: Seq<(TermV, TermV)>, infos: Seq<CtorInfo>)
    requires
        misused(s, infos),
    ensures
        occurs_in_entries(s, es) ==> arity_diags_entries(es, infos).contains(misuse_warning(s, infos)),
    decreases es,
{
    if es.len() > 0 {
        let w = misuse_warning(s, infos);
        lemma_misuse_in_entries(s, es.drop_last(), infos);
        lemma_misuse_in_term(s, es.last().0, infos);
        lemma_misuse_in_term(s, es.last().1, infos);
        let a = arity_diags_entries(es.drop_last(), infos);
        let b = arity_diags(es.last().0, infos);
        let c = arity_diags(es.last().1, infos);
        lemma_concat_contains(a, b, w);
        lemma_concat_contains(a + b, c, w);
    }
}

proof fn lemma_rules_report(rs: Seq<RuleV>, infos: Seq<CtorInfo>, i: int, x: DiagV)
    requires
        0 <= i < rs.len(),
        rule_diags(rs[i], infos).contains(x),
    ensures
        rules_diags(rs, infos).contains(x),
    decreases rs.len(),
{
    if i < rs.len() - 1 {
        lemma_rules_report(rs.drop_last(), infos, i, x);
    }
    lemma_concat_contains(rules_diags(rs.drop_last(), infos), rule_diags(rs.last(), infos), x);
}

proof fn lemma_prayogas_report(ps: Seq<TermV>, infos: Seq<CtorInfo>, i: int, x: DiagV)
    requires
        0 <= i < ps.len(),
        arity_diags(ps[i], infos).contains(x),
    ensures
        prayogas_diags(ps, infos).contains(x),
    decreases ps.len(),
{
    let pre = sort_dedup(free_uses(ps.last(), Set::empty())).map_values(
        |v: Seq<char>| DiagV { severity: Severity::Error, msg: prayoga_unbound_msg(ps.len(), v) },
    );
    if i < ps.len() - 1 {
        lemma_prayogas_report(ps.drop_last(), infos, i, x);
    } else {
        lemma_concat_contains(pre, arity_diags(ps.last(), infos), x);
    }
    lemma_concat_contains(prayogas_diags(ps.drop_last(), infos), prayoga_diags(ps.len(), ps.last(), infos), x);
}

/// Every misused constructor is reported: wherever a constructor declared
/// by a saṃjñā of the context is applied to a different (non-zero) number
/// of arguments than declared — in a rule's left- or right-hand side or in
/// a प्रयोग, at any depth, under a lambda too — `check` warns about it.
pub proof fn lemma_every_misuse_is_reported(context: ProgramV, target: ProgramV, s: TermV)
    requires
        misused(s, ctor_infos(context.samjnas)),
    ensures
        (exists|i: int|
            0 <= i < target.rules.len() && (occurs_in(s, (#[trigger] target.rules[i]).lhs) || occurs_in(
                s,
                target.rules[i].rhs,
            ))) ==> check_spec(context, target).contains(misuse_warning(s, ctor_infos(context.samjnas))),
        (exists|i: int| 0 <= i < target.prayogas.len() && occurs_in(s, #[trigger] target.prayogas[i]))
            ==> check_spec(context, target).contains(misuse_warning(s, ctor_infos(context.samjnas))),
{
    let infos = ctor_infos(context.samjnas);
    let w = misuse_warning(s, infos);
    let rd = rules_diags(target.rules, infos);
    let pd = prayogas_diags(target.prayogas, infos);
    let ed = exhaustiveness_diags(function_order(target.rules), target.rules, infos);
    let cd = classes_diags(target.classes, context.inventory);
    if exists|i: int|
        0 <= i < target.rules.len() && (occurs_in(s, (#[trigger] target.rules[i]).lhs) || occurs_in(
            s,
            target.rules[i].rhs,
        )) {
        let i = choose|i: int|
            0 <= i < target.rules.len() && (occurs_in(s, (#[trigger] target.rules[i]).lhs) || occurs_in(
                s,
                target.rules[i].rhs,
            ));
        let r = target.rules[i];
        lemma_misuse_in_term(s, r.lhs, infos);
        lemma_misuse_in_term(s, r.rhs, infos);
        let unb = rule_unbound(r).map_values(
            |v: Seq<char>| DiagV { severity: Severity::Error, msg: rule_unbound_msg(head_text(r.lhs), v) },
        );
        lemma_concat_contains(unb, arity_diags(r.lhs, infos), w);
        lemma_concat_contains(unb + arity_diags(r.lhs, infos), arity_diags(r.rhs, infos), w);
        lemma_rules_report(target.rules, infos, i, w);
        lemma_concat_contains(rd, pd, w);
        lemma_concat_contains(rd + pd, ed, w);
        lemma_concat_contains(rd + pd + ed, cd, w);
    }
    if exists|i: int| 0 <= i < target.prayogas.len() && occurs_in(s, #[trigger] target.prayogas[i]) {
        let i = choose|i: int| 0 <= i < target.prayogas.len() && occurs_in(s, #[trigger] target.prayogas[i]);
        lemma_misuse_in_term(s, target.prayogas[i], infos);
        lemma_prayogas_report(target.prayogas, infos, i, w);
        lemma_concat_contains(rd, pd, w);
        lemma_concat_contains(rd + pd, ed, w);
        lemma_concat_contains(rd + pd + ed, cd, w);
    }
}

proof fn lemma_concat_split(a: Seq<DiagV>, b: Seq<DiagV>, x: DiagV)
    ensures
        (a + b).contains(x) ==> a.contains(x) || b.contains(x),
{
    if (a + b).contains(x) {
        let i = choose|i: int| 0 <= i < (a + b).len() && (a + b)[i] == x;
        if i < a.len() {
            assert(a[i] == x);
        } else {
            assert(b[i - a.len()] == x);
        }
    }
}

/// A finding names a misused constructor occurring in the term.
pub open spec fn names_a_misuse(t: TermV, infos: Seq<CtorInfo>, x: DiagV) -> bool {
    exists|s: TermV| #[trigger] occurs_in(s, t) && misused(s, infos) && x == misuse_warning(s, infos)
}

proof fn lemma_arity_sound(t: TermV, infos: Seq<CtorInfo>, x: DiagV)
    ensures
        arity_diags(t, infos).contains(x) ==> names_a_misuse(t, infos, x),
    decreases t,
{
    if arity_diags(t, infos).contains(x) {
        match t {
            TermV::Sym(n, args) => {
                let own = match last_info(infos, n) {
                    Some(info) => if args.len() > 0 && args.len() != info.arity {
                        seq![DiagV { severity: Severity::Warning, msg: arity_msg(n, info.arity, args.len()) }]
                    } else {
                        Seq::empty()
                    },
                    None => Seq::empty(),
                };
                lemma_concat_split(own, arity_diags_all(args, infos), x);
                if own.contains(x) {
                    assert(occurs_in(t, t));
                    assert(misused(t, infos) && x == misuse_warning(t, infos));
                } else {
                    lemma_arity_sound_all(args, infos, x);
                    let s = choose|s: TermV| #[trigger] occurs_in_any(s, args) && misused(s, infos) && x
                        == misuse_warning(s, infos);
                    assert(occurs_in(s, t));
                }
            },
            TermV::App(f, args) => {
                lemma_concat_split(arity_diags(*f, infos), arity_diags_all(args, infos), x);
                if arity_diags(*f, infos).contains(x) {
                    lemma_arity_sound(*f, infos, x);
                    let s = choose|s: TermV| #[trigger] occurs_in(s, *f) && misused(s, infos) && x
                        == misuse_warning(s, infos);
                    assert(occurs_in(s, t));
                } else {
                    lemma_arity_sound_all(args, infos, x);
                    let s = choose|s: TermV| #[trigger] occurs_in_any(s, args) && misused(s, infos) && x
                        == misuse_warning(s, infos);
                    assert(occurs_in(s, t));
                }
            },
            TermV::Lam(_, body) => {
                lemma_arity_sound(*body, infos, x);
                let s = choose|s: TermV| #[trigger] occurs_in(s, *body) && misused(s, infos) && x
                    == misuse_warning(s, infos);
                assert(occurs_in(s, t));
            },
            TermV::Kosha(es) => {
                lemma_arity_sound_entries(es, infos, x);
                let s = choose|s: TermV| #[trigger] occurs_in_entries(s, es) && misused(s, infos) && x
                    == misuse_warning(s, infos);
                assert(occurs_in(s, t));
            },
            _ => {},
        }
    }
}

proof fn lemma_arity_sound_all(ts: Seq<TermV>, infos: Seq<CtorInfo>, x: DiagV)
    ensures
        arity_diags_all(ts, infos).contains(x) ==> exists|s: TermV|
            #[trigger] occurs_in_any(s, ts) && misused(s, infos) && x == misuse_warning(s, infos),
    decreases ts,
{
    if ts.len() > 0 && arity_diags_all(ts, infos).contains(x) {
        lemma_concat_split(arity_diags_all(ts.drop_last(), infos), arity_diags(ts.last(), infos), x);
        if arity_diags_all(ts.drop_last(), infos).contains(x) {
            lemma_arity_sound_all(ts.drop_last(), infos, x);
            let s = choose|s: TermV| #[trigger] occurs_in_any(s, ts.drop_last()) && misused(s, infos) && x
                == misuse_warning(s, infos);
            assert(occurs_in_any(s, ts));
        } else {
            lemma_arity_sound(ts.last(), infos, x);
            let s = choose|s: TermV| #[trigger] occurs_in(s, ts.last()) && misused(s, infos) && x
                == misuse_warning(s, infos);
            assert(occurs_in_any(s, ts));
        }
    }
}

proof fn lemma_arity_sound_entries(es: Seq<(TermV, TermV)>, infos: Seq<CtorInfo>, x: DiagV)
    ensures
        arity_diags_entries(es, infos).contains(x) ==> exists|s: TermV|
            #[trigger] occurs_in_entries(s, es) && misused(s, infos) && x == misuse_warning(s, infos),
    decreases es,
{
    if es.len() > 0 && arity_diags_entries(es, infos).contains(x) {
        let a = arity_diags_entries(es.drop_last(), infos);
        let b = arity_diags(es.last().0, infos);
        let c = arity_diags(es.last().1, infos);
        lemma_concat_split(a + b, c, x);
        lemma_concat_split(a, b, x);
        if a.contains(x) {
            lemma_arity_sound_entries(es.drop_last(), infos, x);
            let s = choose|s: TermV| #[trigger] occurs_in_entries(s, es.drop_last()) && misused(s, infos) && x
                == misuse_warning(s, infos);
            assert(occurs_in_entries(s, es));
        } else if b.contains(x) {
            lemma_arity_sound(es.last().0, infos, x);
            let s = choose|s: TermV| #[trigger] occurs_in(s, es.last().0) && misused(s, infos) && x
                == misuse_warning(s, infos);
            assert(occurs_in_entries(s, es));
        } else {
            lemma_arity_sound(es.last().1, infos, x);
            let s = choose|s: TermV| #[trigger] occurs_in(s, es.last().1) && misused(s, infos) && x
                == misuse_warning(s, infos);
            assert(occurs_in_entries(s, es));
        }
    }
}

/// The arity findings on a term are exactly the warnings for the misused
/// constructors that occur in it: each such use is reported, and every
/// report names one.
pub proof fn lemma_arity_findings_exact(t: TermV, infos: Seq<CtorInfo>, x: DiagV)
    ensures
        arity_diags(t, infos).contains(x) <==> names_a_misuse(t, infos, x),
{
    lemma_arity_sound(t, infos, x);
    if names_a_misuse(t, infos, x) {
        let s = choose|s: TermV| #[trigger] occurs_in(s, t) && misused(s, infos) && x == misuse_warning(s, infos);
        lemma_misuse_in_term(s, t, infos);
    }
}

} // verus!
