//! Matching patterns against terms and substituting bindings into
//! templates: the two halves of a rewrite step.
use crate::ast::{
    clone_names, clone_term, entries_view, lemma_entries_view, lemma_terms_view, names_view, term_eq,
    term_equal, float_bits_eq, Term, TermV, terms_view,
};
use crate::text::str_eq;
use vstd::prelude::*;

verus! {

/// Variable bindings produced by matching: names to terms.
pub struct Bindings {
    entries: Vec<(String, Term)>,
}

/// The map an association list denotes: a later entry overrides an earlier
/// one for the same name.
pub open spec fn assoc_map(es: Seq<(String, Term)>) -> Map<Seq<char>, TermV>
    decreases es.len(),
{
    if es.len() == 0 {
        Map::empty()
    } else {
        assoc_map(es.drop_last()).insert(es.last().0@, es.last().1@)
    }
}

impl View for Bindings {
    type V = Map<Seq<char>, TermV>;

    closed spec fn view(&self) -> Map<Seq<char>, TermV> {
        assoc_map(self.entries@)
    }
}

/// The entries that do not bind `k`, in order.
pub open spec fn without_name(es: Seq<(String, Term)>, k: Seq<char>) -> Seq<(String, Term)>
    decreases es.len(),
{
    if es.len() == 0 {
        es
    } else if es.last().0@ != k {
        without_name(es.drop_last(), k).push(es.last())
    } else {
        without_name(es.drop_last(), k)
    }
}

/// Removing one name from an association list removes it from the map.
proof fn lemma_assoc_without(es: Seq<(String, Term)>, k: Seq<char>)
    ensures
        assoc_map(without_name(es, k)) == assoc_map(es).remove(k),
    decreases es.len(),
{
    if es.len() == 0 {
        assert(assoc_map(es).remove(k) =~= Map::<Seq<char>, TermV>::empty());
    } else {
        lemma_assoc_without(es.drop_last(), k);
        let w = without_name(es.drop_last(), k);
        if es.last().0@ != k {
            assert(without_name(es, k).drop_last() =~= w);
            assert(assoc_map(es).remove(k) =~= assoc_map(es.drop_last()).remove(k).insert(
                es.last().0@,
                es.last().1@,
            ));
        } else {
            assert(assoc_map(es).remove(k) =~= assoc_map(es.drop_last()).remove(k));
        }
    }
}

/// When no entry from position `i` on binds `k`, the whole list binds `k`
/// exactly as its first `i` entries do.
proof fn lemma_assoc_suffix(es: Seq<(String, Term)>, i: int, k: Seq<char>)
    requires
        0 <= i <= es.len(),
        forall|j: int| i <= j < es.len() ==> (#[trigger] es[j]).0@ != k,
    ensures
        assoc_map(es).contains_key(k) == assoc_map(es.take(i)).contains_key(k),
        assoc_map(es).contains_key(k) ==> assoc_map(es)[k] == assoc_map(es.take(i))[k],
    decreases es.len() - i,
{
    if i < es.len() {
        let d = es.drop_last();
        assert forall|j: int| i <= j < d.len() implies (#[trigger] d[j]).0@ != k by {
            assert(d[j] == es[j]);
        }
        lemma_assoc_suffix(d, i, k);
        assert(d.take(i) =~= es.take(i));
        assert(es.last() == es[es.len() - 1]);
    } else {
        assert(es.take(i) =~= es);
    }
}

impl Bindings {
    /// No bindings.
    pub fn new() -> (b: Bindings)
        ensures
            b@ == Map::<Seq<char>, TermV>::empty(),
    {
        Bindings { entries: Vec::new() }
    }

    /// The term bound to `name`, if any.
    pub fn get(&self, name: &str) -> (r: Option<&Term>)
        ensures
            match r {
                Some(t) => self@.contains_key(name@) && self@[name@] == t@,
                None => !self@.contains_key(name@),
            },
    {
        let ghost es = self.entries@;
        let mut i: usize = self.entries.len();
        while i > 0
            invariant
                i <= self.entries.len(),
                es == self.entries@,
                forall|j: int| i <= j < es.len() ==> (#[trigger] es[j]).0@ != name@,
            decreases i,
        {
            if str_eq(self.entries[i - 1].0.as_str(), name) {
                proof {
                    lemma_assoc_suffix(es, i as int, name@);
                    assert(es.take(i as int).drop_last() =~= es.take(i - 1));
                    assert(es.take(i as int).last() == es[i - 1]);
                }
                return Some(&self.entries[i - 1].1);
            }
            i = i - 1;
        }
        proof {
            lemma_assoc_suffix(es, 0, name@);
            assert(es.take(0) =~= Seq::<(String, Term)>::empty());
        }
        None
    }

    /// Bind `name` to `t`, replacing any earlier binding.
    pub fn insert(&mut self, name: String, t: Term)
        ensures
            final(self)@ == old(self)@.insert(name@, t@),
    {
        let ghost es = self.entries@;
        self.entries.push((name, t));
        proof {
            assert(self.entries@.drop_last() =~= es);
        }
    }

    /// Drop any binding of `name`.
    pub fn remove(&mut self, name: &str)
        ensures
            final(self)@ == old(self)@.remove(name@),
    {
        let ghost es = self.entries@;
        let mut kept: Vec<(String, Term)> = Vec::new();
        let mut old_entries: Vec<(String, Term)> = Vec::new();
        std::mem::swap(&mut old_entries, &mut self.entries);
        proof {
            assert(es.take(0) =~= Seq::<(String, Term)>::empty());
        }
        for e in it: old_entries
            invariant
                it.seq() == es,
                kept@ == without_name(es.take(it.index() as int), name@),
        {
            let ghost k = it.index() as int;
            proof {
                assert(es[k] == e);
                assert(es.take(k + 1).drop_last() =~= es.take(k));
                assert(es.take(k + 1).last() == e);
            }
            if !str_eq(e.0.as_str(), name) {
                kept.push(e);
            }
        }
        proof {
            assert(es.take(es.len() as int) =~= es);
            lemma_assoc_without(es, name@);
        }
        self.entries = kept;
    }

    /// A copy with the same bindings.
    pub fn copy(&self) -> (r: Bindings)
        ensures
            r@ == self@,
    {
        let ghost es = self.entries@;
        let mut out: Vec<(String, Term)> = Vec::new();
        let mut i: usize = 0;
        while i < self.entries.len()
            invariant
                i <= self.entries.len(),
                es == self.entries@,
                out.len() == i,
                assoc_map(out@) == assoc_map(es.take(i as int)),
            decreases self.entries.len() - i,
        {
            let ghost before = out@;
            out.push((self.entries[i].0.clone(), clone_term(&self.entries[i].1)));
            proof {
                assert(out@.drop_last() =~= before);
                assert(es.take(i + 1).drop_last() =~= es.take(i as int));
            }
            i = i + 1;
        }
        proof {
            assert(es.take(i as int) =~= es);
        }
        Bindings { entries: out }
    }
}

/// `t` with each bound variable replaced by its binding; a lambda's
/// parameters shadow outer bindings of the same name.
pub open spec fn subst_spec(t: TermV, m: Map<Seq<char>, TermV>) -> TermV
    decreases t,
{
    match t {
        TermV::Var(v) => if m.contains_key(v) {
            m[v]
        } else {
            t
        },
        TermV::Sym(n, args) => TermV::Sym(n, subst_all(args, m)),
        TermV::Lam(ps, body) => TermV::Lam(ps, Box::new(subst_spec(*body, m.remove_keys(ps.to_set())))),
        TermV::App(f, args) => TermV::App(Box::new(subst_spec(*f, m)), subst_all(args, m)),
        TermV::Kosha(es) => TermV::Kosha(subst_entries(es, m)),
        _ => t,
    }
}

pub open spec fn subst_all(ts: Seq<TermV>, m: Map<Seq<char>, TermV>) -> Seq<TermV>
    decreases ts,
{
    if ts.len() == 0 {
        Seq::empty()
    } else {
        subst_all(ts.drop_last(), m).push(subst_spec(ts.last(), m))
    }
}

pub open spec fn subst_entries(es: Seq<(TermV, TermV)>, m: Map<Seq<char>, TermV>) -> Seq<(TermV, TermV)>
    decreases es,
{
    if es.len() == 0 {
        Seq::empty()
    } else {
        subst_entries(es.drop_last(), m).push((subst_spec(es.last().0, m), subst_spec(es.last().1, m)))
    }
}

proof fn lemma_subst_all(ts: Seq<TermV>, m: Map<Seq<char>, TermV>)
    ensures
        subst_all(ts, m).len() == ts.len(),
        forall|i: int| 0 <= i < ts.len() ==> #[trigger] subst_all(ts, m)[i] == subst_spec(ts[i], m),
    decreases ts.len(),
{
    if ts.len() > 0 {
        lemma_subst_all(ts.drop_last(), m);
    }
}

proof fn lemma_subst_entries(es: Seq<(TermV, TermV)>, m: Map<Seq<char>, TermV>)
    ensures
        subst_entries(es, m).len() == es.len(),
        forall|i: int|
            0 <= i < es.len() ==> #[trigger] subst_entries(es, m)[i] == (subst_spec(es[i].0, m), subst_spec(
                es[i].1,
                m,
            )),
    decreases es.len(),
{
    if es.len() > 0 {
        lemma_subst_entries(es.drop_last(), m);
    }
}

/// The set of a sequence with one more element.
proof fn lemma_push_to_set(s: Seq<Seq<char>>, x: Seq<char>)
    ensures
        s.push(x).to_set() == s.to_set().insert(x),
{
    assert forall|y: Seq<char>| s.push(x).to_set().contains(y) <==> s.to_set().insert(x).contains(y) by {
        if s.push(x).contains(y) {
            let k = choose|k: int| 0 <= k < s.push(x).len() && s.push(x)[k] == y;
            if k < s.len() {
                assert(s[k] == y);
            }
        }
        if s.contains(y) {
            let k = choose|k: int| 0 <= k < s.len() && s[k] == y;
            assert(s.push(x)[k] == y);
        }
        if y == x {
            assert(s.push(x)[s.len() as int] == y);
        }
    }
    assert(s.push(x).to_set() =~= s.to_set().insert(x));
}

/// Substitute the bindings into a template.
pub fn subst(t: &Term, binds: &Bindings) -> (r: Term)
    ensures
        r@ == subst_spec(t@, binds@),
    decreases t,
{
    match t {
        Term::Var(v) => match binds.get(v.as_str()) {
            Some(x) => clone_term(x),
            None => Term::Var(v.clone()),
        },
        Term::Sym(name, args) => Term::Sym(name.clone(), subst_terms(args, binds)),
        Term::Lam(params, body) => {
            let mut inner = binds.copy();
            let ghost pv = names_view(params@);
            let mut k: usize = 0;
            proof {
                assert(binds@.remove_keys(pv.take(0).to_set()) =~= binds@);
            }
            while k < params.len()
                invariant
                    k <= params.len(),
                    pv == names_view(params@),
                    inner@ == binds@.remove_keys(pv.take(k as int).to_set()),
                decreases params.len() - k,
            {
                inner.remove(params[k].as_str());
                proof {
                    assert(pv.take(k + 1) =~= pv.take(k as int).push(pv[k as int]));
                    lemma_push_to_set(pv.take(k as int), pv[k as int]);
                    assert(inner@ =~= binds@.remove_keys(pv.take(k + 1).to_set()));
                }
                k = k + 1;
            }
            proof {
                assert(pv.take(k as int) =~= pv);
            }
            let body2 = subst(body, &inner);
            Term::Lam(clone_names(params), Box::new(body2))
        },
        Term::App(f, args) => {
            let f2 = subst(f, binds);
            Term::App(Box::new(f2), subst_terms(args, binds))
        },
        Term::Kosha(es) => Term::Kosha(subst_kosha(es, binds)),
        _ => clone_term(t),
    }
}

fn subst_terms(ts: &Vec<Term>, binds: &Bindings) -> (r: Vec<Term>)
    ensures
        terms_view(r@) == subst_all(terms_view(ts@), binds@),
    decreases ts,
{
    proof {
        lemma_terms_view(ts@);
        lemma_subst_all(terms_view(ts@), binds@);
    }
    let mut out: Vec<Term> = Vec::new();
    let mut i: usize = 0;
    while i < ts.len()
        invariant
            i <= ts.len(),
            out.len() == i,
            terms_view(ts@).len() == ts.len(),
            subst_all(terms_view(ts@), binds@).len() == ts.len(),
            forall|j: int| 0 <= j < ts.len() ==> #[trigger] terms_view(ts@)[j] == ts@[j]@,
            forall|j: int|
                0 <= j < ts.len() ==> #[trigger] subst_all(terms_view(ts@), binds@)[j] == subst_spec(
                    terms_view(ts@)[j],
                    binds@,
                ),
            forall|j: int| 0 <= j < i ==> (#[trigger] out@[j])@ == subst_spec(ts@[j]@, binds@),
        decreases ts.len() - i,
    {
        out.push(subst(&ts[i], binds));
        i = i + 1;
    }
    proof {
        lemma_terms_view(out@);
        assert(terms_view(out@) =~= subst_all(terms_view(ts@), binds@));
    }
    out
}

fn subst_kosha(es: &Vec<(Term, Term)>, binds: &Bindings) -> (r: Vec<(Term, Term)>)
    ensures
        entries_view(r@) == subst_entries(entries_view(es@), binds@),
    decreases es,
{
    proof {
        lemma_entries_view(es@);
        lemma_subst_entries(entries_view(es@), binds@);
    }
    let mut out: Vec<(Term, Term)> = Vec::new();
    let mut i: usize = 0;
    while i < es.len()
        invariant
            i <= es.len(),
            out.len() == i,
            entries_view(es@).len() == es.len(),
            subst_entries(entries_view(es@), binds@).len() == es.len(),
            forall|j: int| 0 <= j < es.len() ==> #[trigger] entries_view(es@)[j] == (es@[j].0@, es@[j].1@),
            forall|j: int|
                0 <= j < es.len() ==> #[trigger] subst_entries(entries_view(es@), binds@)[j] == (
                subst_spec(entries_view(es@)[j].0, binds@),
                subst_spec(entries_view(es@)[j].1, binds@),
            ),
            forall|j: int|
                0 <= j < i ==> (#[trigger] out@[j]).0@ == subst_spec(es@[j].0@, binds@) && out@[j].1@
                    == subst_spec(es@[j].1@, binds@),
        decreases es.len() - i,
    {
        let k = subst(&es[i].0, binds);
        let v = subst(&es[i].1, binds);
        out.push((k, v));
        i = i + 1;
    }
    proof {
        lemma_entries_view(out@);
        assert(entries_view(out@) =~= subst_entries(entries_view(es@), binds@));
    }
    out
}

/// Match a pattern against a term, extending the bindings: a variable
/// seen before must meet an equal term (non-linear matching); literals
/// match equal literals; symbols match argument by argument; lambdas and
/// applications in patterns must equal the term.
pub open spec fn match_spec(pat: TermV, term: TermV, m: Map<Seq<char>, TermV>) -> Option<Map<Seq<char>, TermV>>
    decreases pat,
{
    match pat {
        TermV::Var(v) => if m.contains_key(v) {
            if term_equal(m[v], term) {
                Some(m)
            } else {
                None
            }
        } else {
            Some(m.insert(v, term))
        },
        TermV::Int(a) => if term == TermV::Int(a) {
            Some(m)
        } else {
            None
        },
        TermV::Big(a) => if term == TermV::Big(a) {
            Some(m)
        } else {
            None
        },
        TermV::Float(a, _) => match term {
            TermV::Float(b, _) => if float_bits_eq(a, b) {
                Some(m)
            } else {
                None
            },
            _ => None,
        },
        TermV::Str(a) => if term == TermV::Str(a) {
            Some(m)
        } else {
            None
        },
        TermV::Sym(name, pargs) => match term {
            TermV::Sym(tname, targs) => if name == tname && pargs.len() == targs.len() {
                match_all(pargs, targs, m)
            } else {
                None
            },
            _ => None,
        },
        _ => if term_equal(pat, term) {
            Some(m)
        } else {
            None
        },
    }
}

/// Match patterns against terms position by position, threading bindings.
pub open spec fn match_all(ps: Seq<TermV>, ts: Seq<TermV>, m: Map<Seq<char>, TermV>) -> Option<Map<Seq<char>, TermV>>
    decreases ps,
{
    if ps.len() == 0 || ts.len() == 0 {
        Some(m)
    } else {
        match match_spec(ps[0], ts[0], m) {
            Some(m2) => match_all(ps.drop_first(), ts.drop_first(), m2),
            None => None,
        }
    }
}

/// Match patterns against terms position by position (equal lengths).
fn match_terms(ps: &Vec<Term>, ts: &Vec<Term>, binds: Bindings) -> (r: Option<Bindings>)
    requires
        ps.len() == ts.len(),
    ensures
        match r {
            Some(b) => match_all(terms_view(ps@), terms_view(ts@), binds@) == Some(b@),
            None => match_all(terms_view(ps@), terms_view(ts@), binds@) == None::<Map<Seq<char>, TermV>>,
        },
    decreases ps,
{
    proof {
        lemma_terms_view(ps@);
        lemma_terms_view(ts@);
    }
    let ghost pv = terms_view(ps@);
    let ghost tv = terms_view(ts@);
    let ghost m0 = binds@;
    let mut cur = binds;
    let mut i: usize = 0;
    proof {
        assert(pv.skip(0) =~= pv);
        assert(tv.skip(0) =~= tv);
    }
    while i < ps.len()
        invariant
            i <= ps.len(),
            ps.len() == ts.len(),
            pv == terms_view(ps@),
            tv == terms_view(ts@),
            pv.len() == ps.len(),
            tv.len() == ts.len(),
            forall|j: int| 0 <= j < ps.len() ==> #[trigger] pv[j] == ps@[j]@,
            forall|j: int| 0 <= j < ts.len() ==> #[trigger] tv[j] == ts@[j]@,
            m0 == binds@,
            match_all(pv, tv, m0) == match_all(pv.skip(i as int), tv.skip(i as int), cur@),
        decreases ps.len() - i,
    {
        proof {
            assert(pv.skip(i as int)[0] == pv[i as int]);
            assert(tv.skip(i as int)[0] == tv[i as int]);
            assert(pv.skip(i as int).drop_first() =~= pv.skip(i + 1));
            assert(tv.skip(i as int).drop_first() =~= tv.skip(i + 1));
        }
        let ghost c = cur@;
        match match_term(&ps[i], &ts[i], cur) {
            Some(b) => {
                cur = b;
            },
            None => {
                proof {
                    assert(match_spec(pv.skip(i as int)[0], tv.skip(i as int)[0], c) is None);
                    assert(match_all(pv.skip(i as int), tv.skip(i as int), c) is None);
                }
                return None;
            },
        }
        i = i + 1;
    }
    proof {
        assert(pv.skip(i as int).len() == 0);
    }
    Some(cur)
}

/// Match `pat` against `term` starting from `binds`: the extended bindings,
/// or `None` if it does not match.
pub fn match_term(pat: &Term, term: &Term, binds: Bindings) -> (r: Option<Bindings>)
    ensures
        match r {
            Some(b) => match_spec(pat@, term@, binds@) == Some(b@),
            None => match_spec(pat@, term@, binds@) == None::<Map<Seq<char>, TermV>>,
        },
    decreases pat,
{
    match pat {
        Term::Var(v) => {
            let known = match binds.get(v.as_str()) {
                Some(prev) => Some(term_eq(prev, term)),
                None => None,
            };
            match known {
                Some(true) => Some(binds),
                Some(false) => None,
                None => {
                    let mut b = binds;
                    b.insert(v.clone(), clone_term(term));
                    Some(b)
                },
            }
        },
        Term::Int(a) => match term {
            Term::Int(b) => if *a == *b {
                Some(binds)
            } else {
                None
            },
            _ => None,
        },
        Term::Big(a) => match term {
            Term::Big(b) => if a.eq(b) {
                Some(binds)
            } else {
                None
            },
            _ => None,
        },
        Term::Float(a) => match term {
            Term::Float(b) => if a.eq(b) {
                Some(binds)
            } else {
                None
            },
            _ => None,
        },
        Term::Str(a) => match term {
            Term::Str(b) => if str_eq(a.as_str(), b.as_str()) {
                Some(binds)
            } else {
                None
            },
            _ => None,
        },
        Term::Sym(name, pargs) => match term {
            Term::Sym(tname, targs) => {
                proof {
                    lemma_terms_view(pargs@);
                    lemma_terms_view(targs@);
                }
                if !str_eq(name.as_str(), tname.as_str()) || pargs.len() != targs.len() {
                    return None;
                }
                match_terms(pargs, targs, binds)
            },
            _ => None,
        },
        _ => if term_eq(pat, term) {
            Some(binds)
        } else {
            None
        },
    }
}

} // verus!
