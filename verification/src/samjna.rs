//! Optional structural typing via saṃjñā (संज्ञा).
//!
//! Types are not enforced; membership is computed on demand. Native values
//! are recognised under built-in saṃjñā names, so that `42 : संख्या`.
use crate::ast::{
    find_samjna, lemma_terms_view, names_view, term_eq, term_equal, terms_view,
    Program, ProgramV, SamjnaV, Term, TermV,
};
use crate::text::str_eq;
use vstd::prelude::*;

verus! {

/// The built-in saṃjñā names for native values.
pub open spec fn native_names() -> Seq<Seq<char>> {
    seq!["संख्या"@, "दशांश"@, "अक्षरमाला"@, "कोश"@]
}

/// Membership in a built-in saṃjñā: integers in `संख्या`, floats in
/// `दशांश`, strings in `अक्षरमाला`, maps in `कोश`; `None` for other names.
pub open spec fn native_inhabits_spec(name: Seq<char>, t: TermV) -> Option<bool> {
    if name == "संख्या"@ {
        Some(t is Int || t is Big)
    } else if name == "दशांश"@ {
        Some(t is Float)
    } else if name == "अक्षरमाला"@ {
        Some(t is Str)
    } else if name == "कोश"@ {
        Some(t is Kosha)
    } else {
        None
    }
}

/// Does `t` inhabit the saṃjñā `name`? A native name decides by the kind
/// of value; otherwise the first saṃjñā declared under `name` must have
/// an alternative that `t` matches, and an undeclared name has no members.
pub open spec fn inhabits_spec(p: ProgramV, t: TermV, name: Seq<char>) -> bool
    decreases t, 3int, 0int,
{
    match native_inhabits_spec(name, t) {
        Some(b) => b,
        None => match find_samjna(p.samjnas, name) {
            Some(s) => any_alt_matches(p, s.alts, t, s.params),
            None => false,
        },
    }
}

/// Does `t` match one of the alternatives?
pub open spec fn any_alt_matches(p: ProgramV, alts: Seq<TermV>, t: TermV, params: Seq<Seq<char>>) -> bool
    decreases t, 2int, alts.len(),
{
    if alts.len() == 0 {
        false
    } else {
        any_alt_matches(p, alts.drop_last(), t, params) || cons_matches_spec(p, alts.last(), t, params)
    }
}

/// Does `t` match one alternative? A constructor alternative needs the
/// same constructor with fields of the declared types; a variable
/// alternative matches anything; any other alternative must equal `t`.
pub open spec fn cons_matches_spec(p: ProgramV, alt: TermV, t: TermV, params: Seq<Seq<char>>) -> bool
    decreases t, 1int, 0int,
{
    match alt {
        TermV::Sym(c, field_types) => match t {
            TermV::Sym(tc, subs) => tc == c && field_types.len() == subs.len() && all_types_match(
                p,
                field_types,
                subs,
                params,
            ),
            _ => false,
        },
        TermV::Var(_) => true,
        _ => term_equal(alt, t),
    }
}

/// Does each term have the type at the same position?
pub open spec fn all_types_match(p: ProgramV, tys: Seq<TermV>, ts: Seq<TermV>, params: Seq<Seq<char>>) -> bool
    decreases ts, 0int, 0int,
{
    if tys.len() == 0 || ts.len() == 0 {
        true
    } else {
        all_types_match(p, tys.drop_last(), ts.drop_last(), params) && type_matches_spec(
            p,
            tys.last(),
            ts.last(),
            params,
        )
    }
}

/// Does `t` have field type `ty`? A variable or a parameter of the
/// saṃjñā admits anything; a native or declared saṃjñā name asks for
/// membership; another symbol asks for the same constructor with matching
/// fields; anything else must equal `t`.
pub open spec fn type_matches_spec(p: ProgramV, ty: TermV, t: TermV, params: Seq<Seq<char>>) -> bool
    decreases t, 4int, 0int,
{
    match ty {
        TermV::Var(_) => true,
        TermV::Sym(n, fields) => if params.contains(n) {
            true
        } else if native_inhabits_spec(n, t) is Some {
            native_inhabits_spec(n, t) == Some(true)
        } else if find_samjna(p.samjnas, n) is Some {
            inhabits_spec(p, t, n)
        } else {
            match t {
                TermV::Sym(tn, subs) => tn == n && fields.len() == subs.len() && all_types_match(
                    p,
                    fields,
                    subs,
                    params,
                ),
                _ => false,
            }
        },
        _ => term_equal(ty, t),
    }
}

/// The names among `ns` that `t` inhabits, in order.
pub open spec fn inhabited_names(p: ProgramV, t: TermV, ns: Seq<Seq<char>>) -> Seq<Seq<char>>
    decreases ns.len(),
{
    if ns.len() == 0 {
        Seq::empty()
    } else {
        let r = inhabited_names(p, t, ns.drop_last());
        if inhabits_spec(p, t, ns.last()) {
            r.push(ns.last())
        } else {
            r
        }
    }
}

/// `any_alt_matches` holds exactly when some alternative matches.
pub proof fn lemma_any_alt(p: ProgramV, alts: Seq<TermV>, t: TermV, params: Seq<Seq<char>>)
    ensures
        any_alt_matches(p, alts, t, params) <==> exists|i: int|
            0 <= i < alts.len() && #[trigger] cons_matches_spec(p, alts[i], t, params),
    decreases alts.len(),
{
    if alts.len() > 0 {
        lemma_any_alt(p, alts.drop_last(), t, params);
        if any_alt_matches(p, alts.drop_last(), t, params) {
            let i = choose|i: int|
                0 <= i < alts.drop_last().len() && #[trigger] cons_matches_spec(
                    p,
                    alts.drop_last()[i],
                    t,
                    params,
                );
            assert(cons_matches_spec(p, alts[i], t, params));
        }
        if cons_matches_spec(p, alts.last(), t, params) {
            assert(cons_matches_spec(p, alts[alts.len() - 1], t, params));
        }
        if exists|i: int| 0 <= i < alts.len() && #[trigger] cons_matches_spec(p, alts[i], t, params) {
            let i = choose|i: int| 0 <= i < alts.len() && #[trigger] cons_matches_spec(p, alts[i], t, params);
            if i < alts.len() - 1 {
                assert(cons_matches_spec(p, alts.drop_last()[i], t, params));
            }
        }
    }
}

/// For lists of the same length, `all_types_match` holds exactly when
/// every position matches.
pub proof fn lemma_all_types(p: ProgramV, tys: Seq<TermV>, ts: Seq<TermV>, params: Seq<Seq<char>>)
    requires
        tys.len() == ts.len(),
    ensures
        all_types_match(p, tys, ts, params) <==> forall|i: int|
            0 <= i < ts.len() ==> #[trigger] type_matches_spec(p, tys[i], ts[i], params),
    decreases ts.len(),
{
    if ts.len() > 0 {
        let n = ts.len() - 1;
        lemma_all_types(p, tys.drop_last(), ts.drop_last(), params);
        assert(tys.last() == tys[n] && ts.last() == ts[n]);
        if forall|i: int| 0 <= i < ts.len() ==> #[trigger] type_matches_spec(p, tys[i], ts[i], params) {
            assert forall|i: int| 0 <= i < n implies #[trigger] type_matches_spec(
                p,
                tys.drop_last()[i],
                ts.drop_last()[i],
                params,
            ) by {
                assert(type_matches_spec(p, tys[i], ts[i], params));
            }
            assert(type_matches_spec(p, tys[n], ts[n], params));
        }
        if all_types_match(p, tys, ts, params) {
            assert forall|i: int| 0 <= i < ts.len() implies #[trigger] type_matches_spec(
                p,
                tys[i],
                ts[i],
                params,
            ) by {
                if i < n {
                    assert(type_matches_spec(p, tys.drop_last()[i], ts.drop_last()[i], params));
                }
            }
        }
    }
}

/// Membership in a built-in saṃjñā, or `None` for a name that is not one.
fn native_inhabits(name: &str, term: &Term) -> (r: Option<bool>)
    ensures
        r == native_inhabits_spec(name@, term@),
{
    if str_eq(name, "संख्या") {
        Some(
            match term {
                Term::Int(_) | Term::Big(_) => true,
                _ => false,
            },
        )
    } else if str_eq(name, "दशांश") {
        Some(
            match term {
                Term::Float(_) => true,
                _ => false,
            },
        )
    } else if str_eq(name, "अक्षरमाला") {
        Some(
            match term {
                Term::Str(_) => true,
                _ => false,
            },
        )
    } else if str_eq(name, "कोश") {
        Some(
            match term {
                Term::Kosha(_) => true,
                _ => false,
            },
        )
    } else {
        None
    }
}

/// Is `n` one of the saṃjñā's parameters?
fn is_param(params: &Vec<String>, n: &str) -> (r: bool)
    ensures
        r == names_view(params@).contains(n@),
{
    let mut i: usize = 0;
    while i < params.len()
        invariant
            i <= params.len(),
            forall|j: int| 0 <= j < i ==> params@[j]@ != n@,
        decreases params.len() - i,
    {
        if str_eq(params[i].as_str(), n) {
            proof {
                assert(names_view(params@)[i as int] == n@);
            }
            return true;
        }
        i = i + 1;
    }
    proof {
        if names_view(params@).contains(n@) {
            let k = choose|k: int| 0 <= k < names_view(params@).len() && names_view(params@)[k] == n@;
            assert(params@[k]@ == n@);
        }
    }
    false
}

/// Does `term` inhabit the saṃjñā named `name`?
pub fn inhabits(prog: &Program, term: &Term, name: &str) -> (r: bool)
    ensures
        r == inhabits_spec(prog@, term@, name@),
    decreases term, 3int, 0int,
{
    if let Some(b) = native_inhabits(name, term) {
        return b;
    }
    let s = match prog.samjna(name) {
        Some(s) => s,
        None => {
            return false;
        },
    };
    let ghost alts = terms_view(s.alts@);
    let ghost params = names_view(s.params@);
    proof {
        lemma_terms_view(s.alts@);
        lemma_any_alt(prog@, alts, term@, params);
    }
    let mut i: usize = 0;
    while i < s.alts.len()
        invariant
            i <= s.alts.len(),
            alts == terms_view(s.alts@),
            params == names_view(s.params@),
            alts.len() == s.alts.len(),
            forall|j: int| 0 <= j < s.alts.len() ==> #[trigger] alts[j] == s.alts@[j]@,
            forall|j: int| 0 <= j < i ==> !#[trigger] cons_matches_spec(prog@, alts[j], term@, params),
            native_inhabits_spec(name@, term@) is None,
            find_samjna(prog@.samjnas, name@) == Some(s@),
        decreases s.alts.len() - i,
    {
        if cons_matches(prog, &s.alts[i], term, &s.params) {
            proof {
                assert(cons_matches_spec(prog@, alts[i as int], term@, params));
                lemma_any_alt(prog@, alts, term@, params);
            }
            return true;
        }
        i = i + 1;
    }
    proof {
        lemma_any_alt(prog@, alts, term@, params);
    }
    false
}

/// Do the terms have the types at the same positions? (Equal lengths.)
fn all_match(prog: &Program, tys: &Vec<Term>, ts: &Vec<Term>, params: &Vec<String>) -> (r: bool)
    requires
        tys.len() == ts.len(),
    ensures
        r == all_types_match(prog@, terms_view(tys@), terms_view(ts@), names_view(params@)),
    decreases ts, 0int, 0int,
{
    let ghost tyv = terms_view(tys@);
    let ghost tv = terms_view(ts@);
    proof {
        lemma_terms_view(tys@);
        lemma_terms_view(ts@);
        lemma_all_types(prog@, tyv, tv, names_view(params@));
    }
    let mut i: usize = 0;
    while i < ts.len()
        invariant
            i <= ts.len(),
            tys.len() == ts.len(),
            tyv == terms_view(tys@),
            tv == terms_view(ts@),
            tyv.len() == ts.len(),
            tv.len() == ts.len(),
            forall|j: int| 0 <= j < ts.len() ==> #[trigger] tyv[j] == tys@[j]@,
            forall|j: int| 0 <= j < ts.len() ==> #[trigger] tv[j] == ts@[j]@,
            forall|j: int|
                0 <= j < i ==> #[trigger] type_matches_spec(prog@, tyv[j], tv[j], names_view(params@)),
        decreases ts.len() - i,
    {
        if !type_matches(prog, &tys[i], &ts[i], params) {
            proof {
                assert(!type_matches_spec(prog@, tyv[i as int], tv[i as int], names_view(params@)));
                lemma_all_types(prog@, tyv, tv, names_view(params@));
            }
            return false;
        }
        i = i + 1;
    }
    true
}

/// Does `term` match the alternative `alt`?
fn cons_matches(prog: &Program, alt: &Term, term: &Term, params: &Vec<String>) -> (r: bool)
    ensures
        r == cons_matches_spec(prog@, alt@, term@, names_view(params@)),
    decreases term, 1int, 0int,
{
    match alt {
        Term::Sym(c, field_types) => match term {
            Term::Sym(tc, subs) => {
                proof {
                    lemma_terms_view(field_types@);
                    lemma_terms_view(subs@);
                }
                str_eq(tc.as_str(), c.as_str()) && field_types.len() == subs.len() && all_match(
                    prog,
                    field_types,
                    subs,
                    params,
                )
            },
            _ => false,
        },
        Term::Var(_) => true,
        _ => term_eq(alt, term),
    }
}

/// Does `term` have the field type `ty`?
fn type_matches(prog: &Program, ty: &Term, term: &Term, params: &Vec<String>) -> (r: bool)
    ensures
        r == type_matches_spec(prog@, ty@, term@, names_view(params@)),
    decreases term, 4int, 0int,
{
    match ty {
        Term::Var(_) => true,
        Term::Sym(n, fields) => {
            if is_param(params, n.as_str()) {
                return true;
            }
            if let Some(b) = native_inhabits(n.as_str(), term) {
                return b;
            }
            if prog.samjna(n.as_str()).is_some() {
                return inhabits(prog, term, n.as_str());
            }
            match term {
                Term::Sym(tn, subs) => {
                    proof {
                        lemma_terms_view(fields@);
                        lemma_terms_view(subs@);
                    }
                    str_eq(tn.as_str(), n.as_str()) && fields.len() == subs.len() && all_match(
                        prog,
                        fields,
                        subs,
                        params,
                    )
                },
                _ => false,
            }
        },
        _ => term_eq(ty, term),
    }
}

/// Push `name` if `term` inhabits it.
fn push_if_inhabited(prog: &Program, term: &Term, name: &str, out: &mut Vec<String>)
    ensures
        names_view(final(out)@) == if inhabits_spec(prog@, term@, name@) {
            names_view(old(out)@).push(name@)
        } else {
            names_view(old(out)@)
        },
{
    if inhabits(prog, term, name) {
        let ghost before = names_view(out@);
        out.push(name.to_owned());
        proof {
            assert(names_view(out@) =~= before.push(name@));
        }
    }
}

/// The names of all saṃjñās, native and then declared, that `term`
/// inhabits.
pub fn classify(prog: &Program, term: &Term) -> (r: Vec<String>)
    ensures
        names_view(r@) == inhabited_names(
            prog@,
            term@,
            native_names() + prog@.samjnas.map_values(|s: SamjnaV| s.name),
        ),
{
    let ghost all = native_names() + prog@.samjnas.map_values(|s: SamjnaV| s.name);
    let mut out: Vec<String> = Vec::new();
    proof {
        assert(names_view(out@) =~= Seq::<Seq<char>>::empty());
        assert(all.take(0) =~= Seq::<Seq<char>>::empty());
    }
    proof {
        assert(inhabited_names(prog@, term@, all.take(0)) =~= Seq::<Seq<char>>::empty());
        assert(all[0] == "संख्या"@);
        assert(all[1] == "दशांश"@);
        assert(all[2] == "अक्षरमाला"@);
        assert(all[3] == "कोश"@);
    }
    push_if_inhabited(prog, term, "संख्या", &mut out);
    proof {
        assert(all.take(1).drop_last() =~= all.take(0));
        assert(all.take(1).last() == all[0]);
        assert(all.take(1).len() == 1);
        assert(names_view(out@) == inhabited_names(prog@, term@, all.take(1)));
    }
    push_if_inhabited(prog, term, "दशांश", &mut out);
    proof {
        assert(all.take(2).drop_last() =~= all.take(1));
        assert(all.take(2).last() == all[1]);
        assert(all.take(2).len() == 2);
        assert(names_view(out@) == inhabited_names(prog@, term@, all.take(2)));
    }
    push_if_inhabited(prog, term, "अक्षरमाला", &mut out);
    proof {
        assert(all.take(3).drop_last() =~= all.take(2));
        assert(all.take(3).last() == all[2]);
        assert(all.take(3).len() == 3);
        assert(names_view(out@) == inhabited_names(prog@, term@, all.take(3)));
    }
    push_if_inhabited(prog, term, "कोश", &mut out);
    proof {
        assert(all.take(4).drop_last() =~= all.take(3));
        assert(all.take(4).last() == all[3]);
        assert(all.take(4).len() == 4);
        assert(names_view(out@) == inhabited_names(prog@, term@, all.take(4)));
    }
    let mut i: usize = 0;
    while i < prog.samjnas.len()
        invariant
            i <= prog.samjnas.len(),
            all == native_names() + prog@.samjnas.map_values(|s: SamjnaV| s.name),
            names_view(out@) == inhabited_names(prog@, term@, all.take(4 + i)),
        decreases prog.samjnas.len() - i,
    {
        proof {
            assert(all.take(4 + i + 1).drop_last() =~= all.take(4 + i));
            assert(all.take(4 + i + 1).last() == prog.samjnas@[i as int].name@);
        }
        push_if_inhabited(prog, term, prog.samjnas[i].name.as_str(), &mut out);
        i = i + 1;
    }
    proof {
        assert(all.take(4 + i) =~= all);
    }
    out
}

/// `classify` lists exactly the candidate names that the term inhabits:
/// a name is listed if and only if it is a candidate and `inhabits` holds.
pub proof fn lemma_classified_iff_inhabits(p: ProgramV, t: TermV, ns: Seq<Seq<char>>, n: Seq<char>)
    ensures
        inhabited_names(p, t, ns).contains(n) <==> (ns.contains(n) && inhabits_spec(p, t, n)),
    decreases ns.len(),
{
    if ns.len() > 0 {
        let q = ns.drop_last();
        lemma_classified_iff_inhabits(p, t, q, n);
        let r = inhabited_names(p, t, q);
        if ns.contains(n) && n != ns.last() {
            let k = choose|k: int| 0 <= k < ns.len() && ns[k] == n;
            assert(q[k] == n);
        }
        if q.contains(n) {
            let k = choose|k: int| 0 <= k < q.len() && q[k] == n;
            assert(ns[k] == n);
        }
        if n == ns.last() {
            assert(ns[ns.len() - 1] == n);
        }
        if inhabits_spec(p, t, ns.last()) {
            let r2 = r.push(ns.last());
            if r2.contains(n) {
                let k = choose|k: int| 0 <= k < r2.len() && r2[k] == n;
                if k < r.len() {
                    assert(r[k] == n);
                }
            }
            if r.contains(n) {
                let k = choose|k: int| 0 <= k < r.len() && r[k] == n;
                assert(r2[k] == n);
            }
            assert(r2[r.len() as int] == ns.last());
        }
    }
}

/// A field typed by a native saṃjñā (one that is not a parameter) admits
/// exactly that saṃjñā's members: `संख्या` a number, `दशांश` a float,
/// `अक्षरमाला` a string, `कोश` a map.
pub proof fn lemma_native_field_type(p: ProgramV, n: Seq<char>, fs: Seq<TermV>, t: TermV, params: Seq<Seq<char>>)
    requires
        native_inhabits_spec(n, t) is Some,
        !params.contains(n),
    ensures
        type_matches_spec(p, TermV::Sym(n, fs), t, params) == (native_inhabits_spec(n, t) == Some(true)),
        n == "संख्या"@ ==> (type_matches_spec(p, TermV::Sym(n, fs), t, params) <==> (t is Int || t is Big)),
        n == "अक्षरमाला"@ ==> (type_matches_spec(p, TermV::Sym(n, fs), t, params) <==> t is Str),
{
    reveal_strlit("संख्या");
    reveal_strlit("दशांश");
    reveal_strlit("अक्षरमाला");
    reveal_strlit("कोश");
    assert("दशांश"@.len() != "संख्या"@.len());
    assert("अक्षरमाला"@.len() != "संख्या"@.len());
    assert("अक्षरमाला"@.len() != "दशांश"@.len());
    assert("कोश"@.len() != "संख्या"@.len());
    assert("कोश"@.len() != "दशांश"@.len());
    assert("कोश"@.len() != "अक्षरमाला"@.len());
}

/// Each field's type holds of its field when all fields match.
proof fn lemma_all_types_match_each(p: ProgramV, tys: Seq<TermV>, ts: Seq<TermV>, params: Seq<Seq<char>>, i: int)
    requires
        tys.len() == ts.len(),
        0 <= i < ts.len(),
        all_types_match(p, tys, ts, params),
    ensures
        type_matches_spec(p, tys[i], ts[i], params),
    decreases ts.len(),
{
    if i < ts.len() - 1 {
        lemma_all_types_match_each(p, tys.drop_last(), ts.drop_last(), params, i);
    }
}

/// A constructor alternative rejects a value with a field outside the
/// native saṃjñā that types it: `बिन्दु(संख्या, संख्या)` does not admit
/// `बिन्दु("x", 2)`.
pub proof fn lemma_native_field_rejects(
    p: ProgramV,
    c: Seq<char>,
    tys: Seq<TermV>,
    subs: Seq<TermV>,
    params: Seq<Seq<char>>,
    i: int,
)
    requires
        tys.len() == subs.len(),
        0 <= i < tys.len(),
        tys[i] is Sym,
        native_inhabits_spec(tys[i]->Sym_0, subs[i]) == Some(false),
        !params.contains(tys[i]->Sym_0),
    ensures
        !cons_matches_spec(p, TermV::Sym(c, tys), TermV::Sym(c, subs), params),
{
    if cons_matches_spec(p, TermV::Sym(c, tys), TermV::Sym(c, subs), params) {
        lemma_all_types_match_each(p, tys, subs, params, i);
        lemma_native_field_type(p, tys[i]->Sym_0, tys[i]->Sym_1, subs[i], params);
    }
}

} // verus!
