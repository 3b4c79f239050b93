//! Sequence rewriting (क्रम): a named system of rules that rewrite
//! contiguous runs of a list. A pattern element may be a plain pattern, a
//! class name (गण) matching any member, `@गण(?v, गण)` matching a member and
//! binding it, the anchors `@आदि` (start) and `@अन्त` (end), or a segment
//! variable `@तारा(?v)` / `@तारा(?v, गण)` matching a run, longest first.
use crate::ast::{
    clone_term, clone_terms, lemma_terms_view, term_eq, term_equal, terms_equal, lemma_terms_equal, Term, TermV,
    terms_view,
};
use crate::builtins::{list_items, list_items_v, make_list, make_list_v};
use crate::rewrite::{match_spec, match_term, subst, subst_spec, Bindings};
use crate::sivasutra::{
    inventory_view, pratyahara_atoms, pratyahara_members, Pratyahara, PratyaharaV, SivaSutra,
};
use crate::text::str_eq;
use vstd::prelude::*;

verus! {

/// A class (गण): a named set of atoms, with the pratyāhāra it was derived
/// from where it was declared by one.
#[derive(Debug)]
pub struct Class {
    pub name: String,
    pub members: Vec<Term>,
    pub span: Option<Pratyahara>,
}

pub struct ClassV {
    pub name: Seq<char>,
    pub members: Seq<TermV>,
    pub span: Option<PratyaharaV>,
}

/// The view of an optional pratyāhāra.
pub open spec fn span_view(p: Option<Pratyahara>) -> Option<PratyaharaV> {
    match p {
        Some(x) => Some(x@),
        None => None,
    }
}

impl View for Class {
    type V = ClassV;

    open spec fn view(&self) -> ClassV {
        ClassV { name: self.name@, members: terms_view(self.members@), span: span_view(self.span) }
    }
}

/// One rule of a sequence system: a run matching `lhs` becomes `rhs`.
#[derive(Debug)]
pub struct SeqRule {
    pub lhs: Vec<Term>,
    pub rhs: Vec<Term>,
}

pub struct SeqRuleV {
    pub lhs: Seq<TermV>,
    pub rhs: Seq<TermV>,
}

impl View for SeqRule {
    type V = SeqRuleV;

    open spec fn view(&self) -> SeqRuleV {
        SeqRuleV { lhs: terms_view(self.lhs@), rhs: terms_view(self.rhs@) }
    }
}

/// A sequence system (क्रम): named rules applied to a list.
#[derive(Debug)]
pub struct SeqSystem {
    pub name: String,
    pub rules: Vec<SeqRule>,
}

pub struct SeqSystemV {
    pub name: Seq<char>,
    pub rules: Seq<SeqRuleV>,
}

impl View for SeqSystem {
    type V = SeqSystemV;

    open spec fn view(&self) -> SeqSystemV {
        SeqSystemV { name: self.name@, rules: seq_rules_view(self.rules@) }
    }
}

/// The views of sequence systems.
pub open spec fn systems_view(ss: Seq<SeqSystem>) -> Seq<SeqSystemV> {
    ss.map_values(|s: SeqSystem| s@)
}

impl Clone for Class {
    fn clone(&self) -> (r: Class)
        ensures
            r@ == self@,
    {
        let span = match &self.span {
            Some(p) => Some(p.clone()),
            None => None,
        };
        Class { name: self.name.clone(), members: clone_terms(&self.members), span }
    }
}

impl Class {
    /// The class `name` declared as the pratyāhāra `(start, marker)`: its
    /// members are the sounds the pratyāhāra names in the inventory, none
    /// where it cannot be derived.
    pub fn from_pratyahara(inv: &Vec<SivaSutra>, name: String, start: String, marker: String) -> (r: Class)
        ensures
            r@ == (ClassV {
                name: name@,
                members: pratyahara_members(inventory_view(inv@), start@, marker@),
                span: Some(PratyaharaV { start: start@, marker: marker@ }),
            }),
    {
        let members = pratyahara_atoms(inv, start.as_str(), marker.as_str());
        Class { name, members, span: Some(Pratyahara { start, marker }) }
    }
}

impl Clone for SeqRule {
    fn clone(&self) -> (r: SeqRule)
        ensures
            r@ == self@,
    {
        SeqRule { lhs: clone_terms(&self.lhs), rhs: clone_terms(&self.rhs) }
    }
}

impl Clone for SeqSystem {
    fn clone(&self) -> (r: SeqSystem)
        ensures
            r@ == self@,
    {
        let mut rules: Vec<SeqRule> = Vec::new();
        let mut i: usize = 0;
        while i < self.rules.len()
            invariant
                i <= self.rules.len(),
                rules.len() == i,
                forall|j: int| 0 <= j < i ==> (#[trigger] rules@[j])@ == self.rules@[j]@,
            decreases self.rules.len() - i,
        {
            rules.push(self.rules[i].clone());
            i = i + 1;
        }
        proof {
            assert(seq_rules_view(rules@) =~= seq_rules_view(self.rules@));
        }
        SeqSystem { name: self.name.clone(), rules }
    }
}

/// The views of the classes.
pub open spec fn classes_view(cs: Seq<Class>) -> Seq<ClassV> {
    cs.map_values(|c: Class| c@)
}

/// The views of the rules.
pub open spec fn seq_rules_view(rs: Seq<SeqRule>) -> Seq<SeqRuleV> {
    rs.map_values(|r: SeqRule| r@)
}

/// The members of the first class named `name`.
pub open spec fn class_members_spec(cs: Seq<ClassV>, name: Seq<char>) -> Option<Seq<TermV>>
    decreases cs.len(),
{
    if cs.len() == 0 {
        None
    } else if cs[0].name == name {
        Some(cs[0].members)
    } else {
        class_members_spec(cs.drop_first(), name)
    }
}

/// Is `e` a member of class `name`?
pub open spec fn in_class_spec(cs: Seq<ClassV>, name: Seq<char>, e: TermV) -> bool {
    match class_members_spec(cs, name) {
        Some(ms) => exists|i: int| 0 <= i < ms.len() && term_equal(#[trigger] ms[i], e),
        None => false,
    }
}

/// Match one pattern element against one list element.
pub open spec fn elem_match_spec(cs: Seq<ClassV>, pat: TermV, elem: TermV, m: Map<Seq<char>, TermV>) -> Option<Map<Seq<char>, TermV>> {
    match pat {
        TermV::Sym(tag, args) => if tag == "@गण"@ && args.len() == 2 {
            match (args[0], args[1]) {
                (TermV::Var(v), TermV::Sym(cls, _)) => if !in_class_spec(cs, cls, elem) {
                    None
                } else if m.contains_key(v) {
                    if term_equal(m[v], elem) {
                        Some(m)
                    } else {
                        None
                    }
                } else {
                    Some(m.insert(v, elem))
                },
                _ => None,
            }
        } else if args.len() == 0 && class_members_spec(cs, tag) is Some {
            if in_class_spec(cs, tag, elem) {
                Some(m)
            } else {
                None
            }
        } else {
            match_spec(pat, elem, m)
        },
        _ => match_spec(pat, elem, m),
    }
}

/// Is `t` the nullary symbol `name`?
pub open spec fn is_marker(t: TermV, name: Seq<char>) -> bool {
    t matches TermV::Sym(n, a) && n == name && a.len() == 0
}

/// The arguments of a symbol application (empty for anything else).
pub open spec fn sym_args(t: TermV) -> Seq<TermV> {
    match t {
        TermV::Sym(_, a) => a,
        _ => Seq::empty(),
    }
}

/// How many elements from `pos` on are members of class `c`, in a row.
pub open spec fn class_run(cs: Seq<ClassV>, c: Seq<char>, elems: Seq<TermV>, pos: int) -> nat
    decreases elems.len() - pos,
{
    if 0 <= pos < elems.len() && in_class_spec(cs, c, elems[pos]) {
        1 + class_run(cs, c, elems, pos + 1)
    } else {
        0
    }
}

/// The longest run a segment variable may take at `pos`: up to the end,
/// or, constrained to a class, up to the first non-member.
pub open spec fn segment_limit(cs: Seq<ClassV>, args: Seq<TermV>, elems: Seq<TermV>, pos: int) -> int {
    let room = if 0 <= pos <= elems.len() {
        elems.len() - pos
    } else {
        0
    };
    if args.len() > 1 && args[1] is Sym {
        let run = class_run(cs, args[1]->Sym_0, elems, pos) as int;
        if run <= room {
            run
        } else {
            room
        }
    } else {
        room
    }
}

/// Match the patterns against `elems` from position `pos`: the end of the
/// matched run and the bindings, or `None`.
pub open spec fn seq_match(cs: Seq<ClassV>, pats: Seq<TermV>, elems: Seq<TermV>, pos: int, m: Map<Seq<char>, TermV>) -> Option<(int, Map<Seq<char>, TermV>)>
    decreases pats.len(), elems.len() + 2,
{
    if pats.len() == 0 {
        Some((pos, m))
    } else {
        let first = pats[0];
        let rest = pats.drop_first();
        if is_marker(first, "@आदि"@) {
            if pos == 0 {
                seq_match(cs, rest, elems, pos, m)
            } else {
                None
            }
        } else if is_marker(first, "@अन्त"@) {
            if pos == elems.len() {
                seq_match(cs, rest, elems, pos, m)
            } else {
                None
            }
        } else if first matches TermV::Sym(n, a) && n == "@तारा"@ && a.len() > 0 {
            proof {
                assert(rest.len() + 1 == pats.len());
                assert(0 <= segment_limit(cs, sym_args(first), elems, pos) <= elems.len());
            }
            match sym_args(first)[0] {
                TermV::Var(v) => try_segments(
                    cs,
                    rest,
                    elems,
                    pos,
                    m,
                    v,
                    segment_limit(cs, sym_args(first), elems, pos),
                ),
                _ => None,
            }
        } else if 0 <= pos < elems.len() {
            match elem_match_spec(cs, first, elems[pos], m) {
                Some(m2) => seq_match(cs, rest, elems, pos + 1, m2),
                None => None,
            }
        } else {
            None
        }
    }
}

/// Try binding segment variable `v` to the run of length `k` at `pos`, then
/// shorter ones, matching the rest after it.
pub open spec fn try_segments(
    cs: Seq<ClassV>,
    rest: Seq<TermV>,
    elems: Seq<TermV>,
    pos: int,
    m: Map<Seq<char>, TermV>,
    v: Seq<char>,
    k: int,
) -> Option<(int, Map<Seq<char>, TermV>)>
    decreases rest.len() + 1, k + 1,
{
    if k < 0 {
        None
    } else {
        let segment = make_list_v(elems.subrange(pos, pos + k));
        let bound = if m.contains_key(v) {
            if term_equal(m[v], segment) {
                Some(m)
            } else {
                None
            }
        } else {
            Some(m.insert(v, segment))
        };
        match bound {
            Some(m2) => match seq_match(cs, rest, elems, pos + k, m2) {
                Some(r) => Some(r),
                None => try_segments(cs, rest, elems, pos, m, v, k - 1),
            },
            None => try_segments(cs, rest, elems, pos, m, v, k - 1),
        }
    }
}

/// The replacement of one right-hand element: a segment variable splices
/// the run it captured; anything else is substituted.
pub open spec fn expand_piece(t: TermV, m: Map<Seq<char>, TermV>) -> Seq<TermV> {
    if t matches TermV::Sym(n, a) && n == "@तारा"@ && a.len() == 1 && a[0] is Var && m.contains_key(
        a[0]->Var_0,
    ) && list_items_v(m[a[0]->Var_0]) is Some {
        list_items_v(m[sym_args(t)[0]->Var_0])->Some_0
    } else {
        seq![subst_spec(t, m)]
    }
}

/// The replacement for a matched rule's right-hand side.
pub open spec fn expand_spec(rhs: Seq<TermV>, m: Map<Seq<char>, TermV>) -> Seq<TermV>
    decreases rhs.len(),
{
    if rhs.len() == 0 {
        Seq::empty()
    } else {
        expand_spec(rhs.drop_last(), m) + expand_piece(rhs.last(), m)
    }
}

/// The first of rules `j-1, j-2, …, 0` (later rules first) that rewrites
/// the run at `i` into something different: its end and replacement.
pub open spec fn try_rules(cs: Seq<ClassV>, rules: Seq<SeqRuleV>, elems: Seq<TermV>, i: int, j: int) -> Option<(int, Seq<TermV>)>
    decreases j,
{
    if j <= 0 {
        None
    } else {
        match seq_match(cs, rules[j - 1].lhs, elems, i, Map::empty()) {
            Some((end, m)) => if end == i {
                try_rules(cs, rules, elems, i, j - 1)
            } else {
                let repl = expand_spec(rules[j - 1].rhs, m);
                if terms_equal(repl, elems.subrange(i, end)) {
                    try_rules(cs, rules, elems, i, j - 1)
                } else {
                    Some((end, repl))
                }
            },
            None => try_rules(cs, rules, elems, i, j - 1),
        }
    }
}

/// The leftmost position from `i` on where some rule rewrites.
pub open spec fn scan_from(cs: Seq<ClassV>, rules: Seq<SeqRuleV>, elems: Seq<TermV>, i: int) -> Option<(int, int, Seq<TermV>)>
    decreases elems.len() + 1 - i,
{
    if i < 0 || i > elems.len() {
        None
    } else {
        match try_rules(cs, rules, elems, i, rules.len() as int) {
            Some((end, repl)) => Some((i, end, repl)),
            None => scan_from(cs, rules, elems, i + 1),
        }
    }
}

/// Rewrite repeatedly, leftmost run first, until no rule applies; after
/// `budget + 1` rewrites the list is returned as it stands.
pub open spec fn rewrite_spec(cs: Seq<ClassV>, rules: Seq<SeqRuleV>, elems: Seq<TermV>, budget: nat) -> Seq<TermV>
    decreases budget,
{
    match scan_from(cs, rules, elems, 0) {
        None => elems,
        Some((i, end, repl)) => {
            let next = elems.subrange(0, i) + repl + elems.subrange(end, elems.len() as int);
            if budget == 0 {
                next
            } else {
                rewrite_spec(cs, rules, next, (budget - 1) as nat)
            }
        },
    }
}

/// The position of the first class named `name`.
fn class_members(classes: &Vec<Class>, name: &str) -> (r: Option<usize>)
    ensures
        match r {
            Some(i) => i < classes.len() && class_members_spec(classes_view(classes@), name@) == Some(
                classes@[i as int]@.members,
            ),
            None => class_members_spec(classes_view(classes@), name@) == None::<Seq<TermV>>,
        },
{
    let ghost cv = classes_view(classes@);
    let mut i: usize = 0;
    proof {
        assert(cv.skip(0) =~= cv);
    }
    while i < classes.len()
        invariant
            i <= classes.len(),
            cv == classes_view(classes@),
            class_members_spec(cv, name@) == class_members_spec(cv.skip(i as int), name@),
        decreases classes.len() - i,
    {
        proof {
            assert(cv.skip(i as int)[0] == classes@[i as int]@);
            assert(cv.skip(i as int).drop_first() =~= cv.skip(i + 1));
        }
        if str_eq(classes[i].name.as_str(), name) {
            return Some(i);
        }
        i = i + 1;
    }
    None
}

/// Is `elem` a member of class `name`?
fn in_class(classes: &Vec<Class>, name: &str, elem: &Term) -> (r: bool)
    ensures
        r == in_class_spec(classes_view(classes@), name@, elem@),
{
    match class_members(classes, name) {
        Some(c) => {
            let ms = &classes[c].members;
            let ghost mv = terms_view(ms@);
            proof {
                lemma_terms_view(ms@);
            }
            let mut i: usize = 0;
            while i < ms.len()
                invariant
                    i <= ms.len(),
                    mv == terms_view(ms@),
                    mv.len() == ms.len(),
                    forall|j: int| 0 <= j < ms.len() ==> #[trigger] mv[j] == ms@[j]@,
                    forall|j: int| 0 <= j < i ==> !term_equal(#[trigger] mv[j], elem@),
                    class_members_spec(classes_view(classes@), name@) == Some(mv),
                decreases ms.len() - i,
            {
                if term_eq(&ms[i], elem) {
                    proof {
                        assert(term_equal(mv[i as int], elem@));
                        let found = class_members_spec(classes_view(classes@), name@)->Some_0;
                        assert(found == mv);
                        assert(term_equal(found[i as int], elem@));
                    }
                    return true;
                }
                i = i + 1;
            }
            false
        },
        None => false,
    }
}

/// Match one pattern element against one list element.
fn elem_match(classes: &Vec<Class>, pat: &Term, elem: &Term, binds: Bindings) -> (r: Option<Bindings>)
    ensures
        match r {
            Some(b) => elem_match_spec(classes_view(classes@), pat@, elem@, binds@) == Some(b@),
            None => elem_match_spec(classes_view(classes@), pat@, elem@, binds@) == None::<Map<Seq<char>, TermV>>,
        },
{
    if let Term::Sym(tag, args) = pat {
        proof {
            lemma_terms_view(args@);
        }
        if str_eq(tag.as_str(), "@गण") && args.len() == 2 {
            if let (Term::Var(v), Term::Sym(cls, _)) = (&args[0], &args[1]) {
                if !in_class(classes, cls.as_str(), elem) {
                    return None;
                }
                let known = match binds.get(v.as_str()) {
                    Some(prev) => Some(term_eq(prev, elem)),
                    None => None,
                };
                return match known {
                    Some(true) => Some(binds),
                    Some(false) => None,
                    None => {
                        let mut b = binds;
                        b.insert(v.clone(), clone_term(elem));
                        Some(b)
                    },
                };
            }
            return None;
        }
        if args.len() == 0 && class_members(classes, tag.as_str()).is_some() {
            if in_class(classes, tag.as_str(), elem) {
                return Some(binds);
            }
            return None;
        }
    }
    match_term(pat, elem, binds)
}

/// Copies of `elems[from..to]`.
fn copy_run(elems: &Vec<Term>, from: usize, to: usize) -> (r: Vec<Term>)
    requires
        from <= to <= elems.len(),
    ensures
        terms_view(r@) == terms_view(elems@).subrange(from as int, to as int),
{
    proof {
        lemma_terms_view(elems@);
    }
    let mut out: Vec<Term> = Vec::new();
    let mut i = from;
    while i < to
        invariant
            from <= i <= to <= elems.len(),
            out.len() == i - from,
            terms_view(elems@).len() == elems.len(),
            forall|j: int| 0 <= j < elems.len() ==> #[trigger] terms_view(elems@)[j] == elems@[j]@,
            forall|j: int| 0 <= j < out.len() ==> (#[trigger] out@[j])@ == elems@[from + j]@,
        decreases to - i,
    {
        out.push(clone_term(&elems[i]));
        i = i + 1;
    }
    proof {
        lemma_terms_view(out@);
        assert(terms_view(out@) =~= terms_view(elems@).subrange(from as int, to as int));
    }
    out
}

/// Match `pats[pi..]` against `elems` from `pos`; see `seq_match`.
fn seq_match_at(
    classes: &Vec<Class>,
    pats: &Vec<Term>,
    pi: usize,
    elems: &Vec<Term>,
    pos: usize,
    binds: Bindings,
) -> (r: Option<(usize, Bindings)>)
    requires
        pi <= pats.len(),
        pos <= elems.len(),
    ensures
        match r {
            Some((end, b)) => end <= elems.len() && seq_match(
                classes_view(classes@),
                terms_view(pats@).skip(pi as int),
                terms_view(elems@),
                pos as int,
                binds@,
            ) == Some((end as int, b@)),
            None => seq_match(
                classes_view(classes@),
                terms_view(pats@).skip(pi as int),
                terms_view(elems@),
                pos as int,
                binds@,
            ) == None::<(int, Map<Seq<char>, TermV>)>,
        },
    decreases pats.len() - pi,
{
    let ghost cv = classes_view(classes@);
    let ghost pv = terms_view(pats@);
    let ghost ev = terms_view(elems@);
    proof {
        lemma_terms_view(pats@);
        lemma_terms_view(elems@);
    }
    if pi == pats.len() {
        proof {
            assert(pv.skip(pi as int).len() == 0);
        }
        return Some((pos, binds));
    }
    let first = &pats[pi];
    proof {
        assert(pv.skip(pi as int)[0] == first@);
        assert(pv.skip(pi as int).drop_first() =~= pv.skip(pi + 1));
    }
    if let Term::Sym(n, a) = first {
        proof {
            lemma_terms_view(a@);
        }
        if str_eq(n.as_str(), "@आदि") && a.len() == 0 {
            if pos == 0 {
                return seq_match_at(classes, pats, pi + 1, elems, pos, binds);
            }
            return None;
        }
        if str_eq(n.as_str(), "@अन्त") && a.len() == 0 {
            if pos == elems.len() {
                return seq_match_at(classes, pats, pi + 1, elems, pos, binds);
            }
            return None;
        }
        if str_eq(n.as_str(), "@तारा") && a.len() > 0 {
            let v = match &a[0] {
                Term::Var(v) => v,
                _ => {
                    return None;
                },
            };
            let mut max_k = elems.len() - pos;
            if a.len() > 1 {
                if let Term::Sym(cls, _) = &a[1] {
                    let mut c: usize = 0;
                    while pos + c < elems.len() && in_class(classes, cls.as_str(), &elems[pos + c])
                        invariant
                            pos <= elems.len(),
                            pos + c <= elems.len(),
                            ev == terms_view(elems@),
                            ev.len() == elems.len(),
                            forall|j: int| 0 <= j < elems.len() ==> #[trigger] ev[j] == elems@[j]@,
                            cv == classes_view(classes@),
                            class_run(cv, cls@, ev, pos as int) == c + class_run(cv, cls@, ev, pos + c),
                        decreases elems.len() - pos - c,
                    {
                        c = c + 1;
                    }
                    max_k = c;
                }
            }
            proof {
                assert(max_k as int == segment_limit(cv, sym_args(first@), ev, pos as int));
            }
            let ghost rest = pv.skip(pi + 1);
            let ghost m0 = binds@;
            let mut k = max_k;
            loop
                invariant
                    pos + k <= elems.len(),
                    pi < pats.len(),
                    pv == terms_view(pats@),
                    ev == terms_view(elems@),
                    cv == classes_view(classes@),
                    rest == pv.skip(pi + 1),
                    m0 == binds@,
                    ev.len() == elems.len(),
                    seq_match(cv, pv.skip(pi as int), ev, pos as int, m0) == try_segments(
                        cv,
                        rest,
                        ev,
                        pos as int,
                        m0,
                        v@,
                        k as int,
                    ),
                decreases k,
            {
                let run = copy_run(elems, pos, pos + k);
                let segment = make_list(run);
                let ghost seg_v = segment@;
                let ghost bound = if m0.contains_key(v@) {
                    if term_equal(m0[v@], seg_v) {
                        Some(m0)
                    } else {
                        None
                    }
                } else {
                    Some(m0.insert(v@, seg_v))
                };
                let mut trial = binds.copy();
                let known = match trial.get(v.as_str()) {
                    Some(prev) => Some(term_eq(prev, &segment)),
                    None => None,
                };
                let ok = match known {
                    Some(same) => same,
                    None => {
                        trial.insert(v.clone(), segment);
                        true
                    },
                };
                proof {
                    assert(seg_v == make_list_v(ev.subrange(pos as int, pos + k)));
                    assert(ok <==> bound is Some);
                    assert(ok ==> bound == Some(trial@));
                }
                if ok {
                    let ghost t = trial@;
                    match seq_match_at(classes, pats, pi + 1, elems, pos + k, trial) {
                        Some(found) => {
                            return Some(found);
                        },
                        None => {
                            proof {
                                assert(seq_match(cv, rest, ev, pos + k, t) is None);
                            }
                        },
                    }
                }
                proof {
                    assert(try_segments(cv, rest, ev, pos as int, m0, v@, k as int) == try_segments(
                        cv,
                        rest,
                        ev,
                        pos as int,
                        m0,
                        v@,
                        k - 1,
                    ));
                }
                if k == 0 {
                    return None;
                }
                k = k - 1;
            }
        }
    }
    if pos < elems.len() {
        match elem_match(classes, first, &elems[pos], binds) {
            Some(b2) => seq_match_at(classes, pats, pi + 1, elems, pos + 1, b2),
            None => None,
        }
    } else {
        None
    }
}

/// The replacement for a matched rule's right-hand side: `@तारा(?v)`
/// splices the run `?v` captured; every other element is substituted.
fn expand_seq_rhs(rhs: &Vec<Term>, binds: &Bindings) -> (r: Vec<Term>)
    ensures
        terms_view(r@) == expand_spec(terms_view(rhs@), binds@),
{
    let ghost rv = terms_view(rhs@);
    proof {
        lemma_terms_view(rhs@);
    }
    let mut out: Vec<Term> = Vec::new();
    let mut i: usize = 0;
    proof {
        lemma_terms_view(out@);
        assert(terms_view(out@) =~= Seq::<TermV>::empty());
        assert(rv.take(0) =~= Seq::<TermV>::empty());
    }
    while i < rhs.len()
        invariant
            i <= rhs.len(),
            rv == terms_view(rhs@),
            rv.len() == rhs.len(),
            forall|j: int| 0 <= j < rhs.len() ==> #[trigger] rv[j] == rhs@[j]@,
            terms_view(out@) == expand_spec(rv.take(i as int), binds@),
        decreases rhs.len() - i,
    {
        let t = &rhs[i];
        let ghost before = terms_view(out@);
        let mut spliced = false;
        if let Term::Sym(n, args) = t {
            proof {
                lemma_terms_view(args@);
            }
            if str_eq(n.as_str(), "@तारा") && args.len() == 1 {
                if let Term::Var(v) = &args[0] {
                    let items = match binds.get(v.as_str()) {
                        Some(seg) => list_items(seg),
                        None => None,
                    };
                    if let Some(mut items) = items {
                        let ghost iv = terms_view(items@);
                        let ghost o0 = out@;
                        let ghost i0 = items@;
                        out.append(&mut items);
                        proof {
                            lemma_terms_view(o0);
                            lemma_terms_view(i0);
                            lemma_terms_view(out@);
                            assert(terms_view(out@) =~= before + iv);
                            assert(iv == expand_piece(t@, binds@));
                        }
                        spliced = true;
                    }
                }
            }
        }
        if !spliced {
            let x = subst(t, binds);
            let ghost o0 = out@;
            out.push(x);
            proof {
                lemma_terms_view(o0);
                lemma_terms_view(out@);
                assert(terms_view(out@) =~= before.push(subst_spec(t@, binds@)));
                assert(seq![subst_spec(t@, binds@)] == expand_piece(t@, binds@));
                assert(before.push(subst_spec(t@, binds@)) =~= before + seq![subst_spec(t@, binds@)]);
            }
        }
        proof {
            assert(rv.take(i + 1).drop_last() =~= rv.take(i as int));
            assert(rv.take(i + 1).last() == t@);
        }
        i = i + 1;
    }
    proof {
        assert(rv.take(i as int) =~= rv);
    }
    out
}

/// Does the replacement equal the run `elems[from..to]`?
fn same_run(repl: &Vec<Term>, elems: &Vec<Term>, from: usize, to: usize) -> (r: bool)
    requires
        from <= to <= elems.len(),
    ensures
        r == terms_equal(terms_view(repl@), terms_view(elems@).subrange(from as int, to as int)),
{
    let ghost xs = terms_view(repl@);
    let ghost ys = terms_view(elems@).subrange(from as int, to as int);
    proof {
        lemma_terms_view(repl@);
        lemma_terms_view(elems@);
        lemma_terms_equal(xs, ys);
    }
    if repl.len() != to - from {
        return false;
    }
    let mut i: usize = 0;
    while i < repl.len()
        invariant
            i <= repl.len(),
            repl.len() == to - from,
            from <= to <= elems.len(),
            xs == terms_view(repl@),
            ys == terms_view(elems@).subrange(from as int, to as int),
            xs.len() == repl.len(),
            terms_view(elems@).len() == elems.len(),
            forall|j: int| 0 <= j < repl.len() ==> #[trigger] xs[j] == repl@[j]@,
            forall|j: int| 0 <= j < elems.len() ==> #[trigger] terms_view(elems@)[j] == elems@[j]@,
            forall|j: int| 0 <= j < i ==> term_equal(#[trigger] xs[j], ys[j]),
        decreases repl.len() - i,
    {
        if !term_eq(&repl[i], &elems[from + i]) {
            proof {
                assert(ys[i as int] == elems@[from + i]@);
                assert(!term_equal(xs[i as int], ys[i as int]));
                lemma_terms_equal(xs, ys);
            }
            return false;
        }
        proof {
            assert(ys[i as int] == elems@[from + i]@);
        }
        i = i + 1;
    }
    proof {
        lemma_terms_equal(xs, ys);
    }
    true
}

/// The first rule, latest-declared first, that rewrites the run at `i`
/// into something different: its end and replacement.
fn rule_at(classes: &Vec<Class>, rules: &Vec<SeqRule>, elems: &Vec<Term>, i: usize) -> (r: Option<(usize, Vec<Term>)>)
    requires
        i <= elems.len(),
    ensures
        match r {
            Some((end, repl)) => end <= elems.len() && try_rules(
                classes_view(classes@),
                seq_rules_view(rules@),
                terms_view(elems@),
                i as int,
                rules.len() as int,
            ) == Some((end as int, terms_view(repl@))),
            None => try_rules(
                classes_view(classes@),
                seq_rules_view(rules@),
                terms_view(elems@),
                i as int,
                rules.len() as int,
            ) == None::<(int, Seq<TermV>)>,
        },
{
    let ghost cv = classes_view(classes@);
    let ghost rv = seq_rules_view(rules@);
    let ghost ev = terms_view(elems@);
    proof {
        lemma_terms_view(elems@);
    }
    let mut j: usize = rules.len();
    while j > 0
        invariant
            j <= rules.len(),
            i <= elems.len(),
            cv == classes_view(classes@),
            rv == seq_rules_view(rules@),
            ev == terms_view(elems@),
            ev.len() == elems.len(),
            try_rules(cv, rv, ev, i as int, rules.len() as int) == try_rules(cv, rv, ev, i as int, j as int),
        decreases j,
    {
        let rule = &rules[j - 1];
        proof {
            assert(rv[j - 1] == rule@);
            assert(terms_view(rule.lhs@).skip(0) =~= terms_view(rule.lhs@));
        }
        match seq_match_at(classes, &rule.lhs, 0, elems, i, Bindings::new()) {
            Some((end, b)) => {
                if end != i {
                    let repl = expand_seq_rhs(&rule.rhs, &b);
                    if end >= i && !same_run(&repl, elems, i, end) {
                        return Some((end, repl));
                    }
                    proof {
                        if end < i {
                            lemma_seq_match_end(cv, rv[j - 1].lhs, ev, i as int, Map::empty());
                        }
                    }
                }
            },
            None => {},
        }
        j = j - 1;
    }
    None
}

/// The leftmost position where some rule rewrites.
fn find_rewrite(classes: &Vec<Class>, rules: &Vec<SeqRule>, elems: &Vec<Term>) -> (r: Option<(usize, usize, Vec<Term>)>)
    ensures
        match r {
            Some((i, end, repl)) => i <= end <= elems.len() && scan_from(
                classes_view(classes@),
                seq_rules_view(rules@),
                terms_view(elems@),
                0,
            ) == Some((i as int, end as int, terms_view(repl@))),
            None => scan_from(
                classes_view(classes@),
                seq_rules_view(rules@),
                terms_view(elems@),
                0,
            ) == None::<(int, int, Seq<TermV>)>,
        },
{
    let ghost cv = classes_view(classes@);
    let ghost rv = seq_rules_view(rules@);
    let ghost ev = terms_view(elems@);
    proof {
        lemma_terms_view(elems@);
    }
    let mut i: usize = 0;
    loop
        invariant
            i <= elems.len(),
            cv == classes_view(classes@),
            rv == seq_rules_view(rules@),
            ev == terms_view(elems@),
            ev.len() == elems.len(),
            scan_from(cv, rv, ev, 0) == scan_from(cv, rv, ev, i as int),
        decreases elems.len() - i,
    {
        match rule_at(classes, rules, elems, i) {
            Some((end, repl)) => {
                proof {
                    lemma_try_rules_end(cv, rv, ev, i as int, rules.len() as int);
                }
                return Some((i, end, repl));
            },
            None => {},
        }
        if i == elems.len() {
            proof {
                assert(scan_from(cv, rv, ev, i + 1) is None);
            }
            return None;
        }
        i = i + 1;
    }
}

/// A successful match ends no earlier than it starts.
proof fn lemma_seq_match_end(cs: Seq<ClassV>, pats: Seq<TermV>, elems: Seq<TermV>, pos: int, m: Map<Seq<char>, TermV>)
    requires
        0 <= pos <= elems.len(),
    ensures
        seq_match(cs, pats, elems, pos, m) matches Some((end, _)) ==> pos <= end <= elems.len(),
    decreases pats.len(), elems.len() + 2,
{
    if pats.len() > 0 {
        let first = pats[0];
        let rest = pats.drop_first();
        if is_marker(first, "@आदि"@) || is_marker(first, "@अन्त"@) {
            lemma_seq_match_end(cs, rest, elems, pos, m);
        } else if first matches TermV::Sym(n, a) && n == "@तारा"@ && a.len() > 0 {
            if let TermV::Var(v) = sym_args(first)[0] {
                lemma_try_segments_end(cs, rest, elems, pos, m, v, segment_limit(cs, sym_args(first), elems, pos));
            }
        } else if 0 <= pos < elems.len() {
            if let Some(m2) = elem_match_spec(cs, first, elems[pos], m) {
                lemma_seq_match_end(cs, rest, elems, pos + 1, m2);
            }
        }
    }
}

proof fn lemma_try_segments_end(
    cs: Seq<ClassV>,
    rest: Seq<TermV>,
    elems: Seq<TermV>,
    pos: int,
    m: Map<Seq<char>, TermV>,
    v: Seq<char>,
    k: int,
)
    requires
        0 <= pos <= elems.len(),
        k <= elems.len() - pos,
    ensures
        try_segments(cs, rest, elems, pos, m, v, k) matches Some((end, _)) ==> pos <= end <= elems.len(),
    decreases rest.len() + 1, k + 1,
{
    if k >= 0 {
        let segment = make_list_v(elems.subrange(pos, pos + k));
        let bound = if m.contains_key(v) {
            if term_equal(m[v], segment) {
                Some(m)
            } else {
                None
            }
        } else {
            Some(m.insert(v, segment))
        };
        if let Some(m2) = bound {
            lemma_seq_match_end(cs, rest, elems, pos + k, m2);
        }
        lemma_try_segments_end(cs, rest, elems, pos, m, v, k - 1);
    }
}

/// A rewrite found at `i` ends within the list, no earlier than `i`.
proof fn lemma_try_rules_end(cs: Seq<ClassV>, rules: Seq<SeqRuleV>, elems: Seq<TermV>, i: int, j: int)
    requires
        0 <= i <= elems.len(),
        j <= rules.len(),
    ensures
        try_rules(cs, rules, elems, i, j) matches Some((end, _)) ==> i <= end <= elems.len(),
    decreases j,
{
    if j > 0 {
        lemma_seq_match_end(cs, rules[j - 1].lhs, elems, i, Map::empty());
        lemma_try_rules_end(cs, rules, elems, i, j - 1);
    }
}

/// Rewrite `elems` under a sequence system: repeatedly replace the leftmost
/// matching run (the latest-declared rule winning) until none applies, or
/// until `fuel` rewrites have been made and one more.
pub fn rewrite_seq(classes: &Vec<Class>, system: &SeqSystem, elems: Vec<Term>, fuel: u64) -> (r: Vec<Term>)
    ensures
        terms_view(r@) == rewrite_spec(
            classes_view(classes@),
            seq_rules_view(system.rules@),
            terms_view(elems@),
            fuel as nat,
        ),
{
    let ghost cv = classes_view(classes@);
    let ghost rv = seq_rules_view(system.rules@);
    let ghost e0 = terms_view(elems@);
    let mut cur = elems;
    let mut budget = fuel;
    loop
        invariant
            cv == classes_view(classes@),
            rv == seq_rules_view(system.rules@),
            e0 == terms_view(elems@),
            rewrite_spec(cv, rv, e0, fuel as nat) == rewrite_spec(cv, rv, terms_view(cur@), budget as nat),
        decreases budget,
    {
        match find_rewrite(classes, &system.rules, &cur) {
            None => {
                return cur;
            },
            Some((i, end, repl)) => {
                let ghost ev = terms_view(cur@);
                let ghost replv = terms_view(repl@);
                proof {
                    lemma_terms_view(cur@);
                }
                let mut next = copy_run(&cur, 0, i);
                let mut r = repl;
                let tail = copy_run(&cur, end, cur.len());
                let ghost (n0, r0, t0) = (next@, r@, tail@);
                let mut tail = tail;
                next.append(&mut r);
                next.append(&mut tail);
                proof {
                    lemma_terms_view(n0);
                    lemma_terms_view(r0);
                    lemma_terms_view(t0);
                    lemma_terms_view(next@);
                    assert(next@ =~= n0 + r0 + t0);
                    assert(terms_view(next@) =~= ev.subrange(0, i as int) + replv + ev.subrange(
                        end as int,
                        ev.len() as int,
                    ));
                }
                cur = next;
                if budget == 0 {
                    return cur;
                }
                budget = budget - 1;
            },
        }
    }
}

/// No rule rewrites anywhere in the list.
pub open spec fn is_normal(cs: Seq<ClassV>, rules: Seq<SeqRuleV>, elems: Seq<TermV>) -> bool {
    scan_from(cs, rules, elems, 0) is None
}

/// The list after one rewrite of its leftmost rewritable run (itself if
/// there is none).
pub open spec fn rewrite_once(cs: Seq<ClassV>, rules: Seq<SeqRuleV>, elems: Seq<TermV>) -> Seq<TermV> {
    match scan_from(cs, rules, elems, 0) {
        Some((i, end, repl)) => elems.subrange(0, i) + repl + elems.subrange(end, elems.len() as int),
        None => elems,
    }
}

/// Rewriting one step at a time reaches a list where no rule applies
/// within `n` steps.
pub open spec fn normal_within(cs: Seq<ClassV>, rules: Seq<SeqRuleV>, elems: Seq<TermV>, n: nat) -> bool
    decreases n,
{
    if is_normal(cs, rules, elems) {
        true
    } else if n == 0 {
        false
    } else {
        normal_within(cs, rules, rewrite_once(cs, rules, elems), (n - 1) as nat)
    }
}

/// Rewriting runs until no rule applies: given fuel for the rewrites the
/// list needs, the result is a list where no rule applies anywhere.
pub proof fn lemma_rewrite_reaches_normal_form(
    cs: Seq<ClassV>,
    rules: Seq<SeqRuleV>,
    elems: Seq<TermV>,
    fuel: nat,
)
    requires
        normal_within(cs, rules, elems, fuel + 1),
    ensures
        is_normal(cs, rules, rewrite_spec(cs, rules, elems, fuel)),
    decreases fuel,
{
    if !is_normal(cs, rules, elems) {
        let next = rewrite_once(cs, rules, elems);
        assert(normal_within(cs, rules, next, fuel));
        if fuel == 0 {
            assert(rewrite_spec(cs, rules, elems, fuel) == next);
        } else {
            assert(rewrite_spec(cs, rules, elems, fuel) == rewrite_spec(cs, rules, next, (fuel - 1) as nat));
            lemma_rewrite_reaches_normal_form(cs, rules, next, (fuel - 1) as nat);
        }
    }
}

// ---------------------------------------------------------------------------
// A class-constrained segment takes class members only.
proof fn lemma_class_run_members(cs: Seq<ClassV>, c: Seq<char>, elems: Seq<TermV>, pos: int)
    requires
        0 <= pos,
    ensures
        pos + class_run(cs, c, elems, pos) <= if pos <= elems.len() {
            elems.len() as int
        } else {
            pos
        },
        forall|i: int| pos <= i < pos + class_run(cs, c, elems, pos) ==> in_class_spec(cs, c, #[trigger] elems[i]),
    decreases elems.len() - pos,
{
    if 0 <= pos < elems.len() && in_class_spec(cs, c, elems[pos]) {
        lemma_class_run_members(cs, c, elems, pos + 1);
    }
}

proof fn lemma_try_segments_bind_a_run(
    cs: Seq<ClassV>,
    rest: Seq<TermV>,
    elems: Seq<TermV>,
    pos: int,
    m: Map<Seq<char>, TermV>,
    v: Seq<char>,
    k: int,
)
    requires
        0 <= pos,
        pos + k <= elems.len(),
        !m.contains_key(v),
    ensures
        try_segments(cs, rest, elems, pos, m, v, k) matches Some(r) ==> exists|e: int|
            pos <= e <= pos + k && #[trigger] seq_match(
                cs,
                rest,
                elems,
                e,
                m.insert(v, make_list_v(elems.subrange(pos, e))),
            ) == Some(r),
    decreases k + 1,
{
    if k >= 0 {
        lemma_try_segments_bind_a_run(cs, rest, elems, pos, m, v, k - 1);
        let m2 = m.insert(v, make_list_v(elems.subrange(pos, pos + k)));
        if let Some(r) = try_segments(cs, rest, elems, pos, m, v, k) {
            match seq_match(cs, rest, elems, pos + k, m2) {
                Some(r2) => {
                    assert(r2 == r);
                    assert(seq_match(cs, rest, elems, pos + k, m2) == Some(r));
                },
                None => {
                    assert(try_segments(cs, rest, elems, pos, m, v, k - 1) == Some(r));
                },
            }
        }
    }
}

/// A segment variable constrained to a class, `?v:C*`, binds only a run of
/// members of `C`: when a pattern that begins with it matches at `pos`,
/// the match is that of the rest of the pattern after `?v` is bound to the
/// list of some `k` elements from `pos` on, each of them a member of `C`.
pub proof fn lemma_class_segment_takes_members(
    cs: Seq<ClassV>,
    v: Seq<char>,
    c: Seq<char>,
    cargs: Seq<TermV>,
    rest: Seq<TermV>,
    elems: Seq<TermV>,
    pos: int,
    m: Map<Seq<char>, TermV>,
)
    requires
        0 <= pos <= elems.len(),
        !m.contains_key(v),
    ensures
        seq_match(
            cs,
            seq![TermV::Sym("@तारा"@, seq![TermV::Var(v), TermV::Sym(c, cargs)])] + rest,
            elems,
            pos,
            m,
        ) matches Some(r) ==> exists|e: int|
            pos <= e <= elems.len() && (forall|i: int|
                pos <= i < e ==> in_class_spec(cs, c, #[trigger] elems[i])) && #[trigger] seq_match(
                cs,
                rest,
                elems,
                e,
                m.insert(v, make_list_v(elems.subrange(pos, e))),
            ) == Some(r),
{
    let first = TermV::Sym("@तारा"@, seq![TermV::Var(v), TermV::Sym(c, cargs)]);
    let pats = seq![first] + rest;
    assert(pats[0] == first);
    assert(pats.drop_first() =~= rest);
    reveal_strlit("@तारा");
    reveal_strlit("@आदि");
    reveal_strlit("@अन्त");
    assert("@तारा"@.len() != "@आदि"@.len());
    assert("@तारा"@[1] != "@अन्त"@[1]);
    assert(!is_marker(first, "@आदि"@));
    assert(!is_marker(first, "@अन्त"@));
    assert(sym_args(first)[0] == TermV::Var(v));
    let lim = segment_limit(cs, sym_args(first), elems, pos);
    lemma_class_run_members(cs, c, elems, pos);
    assert(lim <= class_run(cs, c, elems, pos));
    assert(seq_match(cs, pats, elems, pos, m) == try_segments(cs, rest, elems, pos, m, v, lim));
    lemma_try_segments_bind_a_run(cs, rest, elems, pos, m, v, lim);
    if let Some(r) = seq_match(cs, pats, elems, pos, m) {
        let e = choose|e: int|
            pos <= e <= pos + lim && #[trigger] seq_match(
                cs,
                rest,
                elems,
                e,
                m.insert(v, make_list_v(elems.subrange(pos, e))),
            ) == Some(r);
        assert forall|i: int| pos <= i < e implies in_class_spec(cs, c, #[trigger] elems[i]) by {}
    }
}

/// `?v:C` matches only a member of `C`, and a bare class name only its
/// members.
pub proof fn lemma_class_patterns_take_members(
    cs: Seq<ClassV>,
    v: Seq<char>,
    c: Seq<char>,
    cargs: Seq<TermV>,
    e: TermV,
    m: Map<Seq<char>, TermV>,
)
    ensures
        elem_match_spec(cs, TermV::Sym("@गण"@, seq![TermV::Var(v), TermV::Sym(c, cargs)]), e, m) is Some
            ==> in_class_spec(cs, c, e),
        c != "@गण"@ && class_members_spec(cs, c) is Some ==> (elem_match_spec(
            cs,
            TermV::Sym(c, Seq::empty()),
            e,
            m,
        ) is Some <==> in_class_spec(cs, c, e)),
{
}

/// `^` matches only at the start of the list and `$` only at its end.
pub proof fn lemma_anchors(cs: Seq<ClassV>, rest: Seq<TermV>, elems: Seq<TermV>, pos: int, m: Map<Seq<char>, TermV>)
    ensures
        seq_match(cs, seq![TermV::Sym("@आदि"@, Seq::empty())] + rest, elems, pos, m) is Some ==> pos == 0,
        seq_match(cs, seq![TermV::Sym("@अन्त"@, Seq::empty())] + rest, elems, pos, m) is Some ==> pos
            == elems.len(),
{
    let s = TermV::Sym("@आदि"@, Seq::empty());
    let t = TermV::Sym("@अन्त"@, Seq::empty());
    assert((seq![s] + rest)[0] == s);
    assert((seq![t] + rest)[0] == t);
    reveal_strlit("@आदि");
    reveal_strlit("@अन्त");
    assert("@आदि"@.len() != "@अन्त"@.len());
}

} // verus!
