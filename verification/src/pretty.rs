//! Printing terms back as source text. Numbers print in Devanagari digits
//! unless `ascii` is asked for; cons-lists print with `[…]` sugar, tuples
//! (`रचना` of two or more) as `(…)`, and the binary operators infix.
use crate::ast::{
    entries_view, lemma_entries_view, lemma_terms_view, names_view, is_finite_bits, Term, TermV,
    terms_view,
};
use crate::bigint::BigInt;
use crate::ast::{Rule, RuleV};
use crate::decimal::{int_to_decimal, nat_to_decimal};
use crate::engine::{Outcome, OutcomeV};
use crate::names::{devanagari_char, devanagari_digits};
use crate::text::{chars_of, push_char, push_str, str_eq};
use vstd::prelude::*;

verus! {

/// Is `name` one of the binary operators printed infix?
pub open spec fn is_operator_spec(name: Seq<char>) -> bool {
    ||| name == "+"@
    ||| name == "-"@
    ||| name == "*"@
    ||| name == "/"@
    ||| name == "%"@
    ||| name == "=="@
    ||| name == "!="@
    ||| name == "<"@
    ||| name == "<="@
    ||| name == ">"@
    ||| name == ">="@
    ||| name == "++"@
    ||| name == "::"@
}

/// `parts` separated by `sep`.
pub open spec fn join(parts: Seq<Seq<char>>, sep: Seq<char>) -> Seq<char>
    decreases parts.len(),
{
    if parts.len() == 0 {
        Seq::empty()
    } else if parts.len() == 1 {
        parts[0]
    } else {
        join(parts.drop_last(), sep) + sep + parts.last()
    }
}

/// ", ": the separator of printed lists and arguments.
pub open spec fn comma_sep() -> Seq<char> {
    seq![',', ' ']
}

/// A number's digits, turned Devanagari unless `ascii`.
pub open spec fn numeral_text(s: Seq<char>, ascii: bool) -> Seq<char> {
    if ascii {
        s
    } else {
        s.map_values(|c: char| devanagari_char(c))
    }
}

/// Does the spelling have a decimal point or an exponent?
pub open spec fn has_point_or_exponent(s: Seq<char>) -> bool {
    exists|i: int| 0 <= i < s.len() && (s[i] == '.' || s[i] == 'e' || s[i] == 'E')
}

/// A float's spelling, with `.0` added to a finite whole number so that it
/// stays visibly a float.
pub open spec fn float_spelling(bits: u64, text: Seq<char>) -> Seq<char> {
    if is_finite_bits(bits) && !has_point_or_exponent(text) {
        text + seq!['.', '0']
    } else {
        text
    }
}

/// The printed form of a term.
pub open spec fn show_spec(t: TermV, ascii: bool) -> Seq<char>
    decreases t, 1int,
{
    match t {
        TermV::Int(n) => numeral_text(int_to_decimal(n), ascii),
        TermV::Big(n) => numeral_text(int_to_decimal(n), ascii),
        TermV::Float(bits, text) => numeral_text(float_spelling(bits, text), ascii),
        TermV::Str(s) => seq!['"'] + s + seq!['"'],
        TermV::Var(v) => seq!['?'] + v,
        TermV::Lam(ps, body) => seq!['('] + join(ps.map_values(|p: Seq<char>| seq!['?'] + p), comma_sep())
            + seq![')', ' ', '=', '>', ' '] + show_spec(*body, ascii),
        TermV::App(f, args) => {
            let fs = if (*f) is Lam {
                seq!['('] + show_spec(*f, ascii) + seq![')']
            } else {
                show_spec(*f, ascii)
            };
            fs + seq!['('] + join(show_all(args, ascii), comma_sep()) + seq![')']
        },
        TermV::Kosha(es) => seq!['{'] + join(show_entries(es, ascii), comma_sep()) + seq!['}'],
        TermV::Sym(name, args) => match list_texts(t, ascii) {
            Some(items) => seq!['['] + join(items, comma_sep()) + seq![']'],
            None => if name == "रचना"@ && args.len() >= 2 {
                seq!['('] + join(show_all(args, ascii), comma_sep()) + seq![')']
            } else if args.len() == 2 && is_operator_spec(name) {
                show_spec(args[0], ascii) + seq![' '] + name + seq![' '] + show_spec(args[1], ascii)
            } else if args.len() == 0 {
                name
            } else {
                name + seq!['('] + join(show_all(args, ascii), comma_sep()) + seq![')']
            },
        },
    }
}

/// The printed forms of a sequence of terms.
pub open spec fn show_all(ts: Seq<TermV>, ascii: bool) -> Seq<Seq<char>>
    decreases ts, 0int,
{
    if ts.len() == 0 {
        Seq::empty()
    } else {
        show_all(ts.drop_last(), ascii).push(show_spec(ts.last(), ascii))
    }
}

/// The printed forms of map entries: `key: value`, a string key bare.
pub open spec fn show_entries(es: Seq<(TermV, TermV)>, ascii: bool) -> Seq<Seq<char>>
    decreases es, 0int,
{
    if es.len() == 0 {
        Seq::empty()
    } else {
        let k = es.last().0;
        let key = match k {
            TermV::Str(s) => s,
            _ => show_spec(k, ascii),
        };
        show_entries(es.drop_last(), ascii).push(key + seq![':', ' '] + show_spec(es.last().1, ascii))
    }
}

/// The printed items of a proper cons-list (`युग्म` cells ending in
/// `रिक्त`), or `None` if the term is not one.
pub open spec fn list_texts(t: TermV, ascii: bool) -> Option<Seq<Seq<char>>>
    decreases t, 0int,
{
    match t {
        TermV::Sym(n, a) => if n == "रिक्त"@ && a.len() == 0 {
            Some(Seq::empty())
        } else if n == "युग्म"@ && a.len() == 2 {
            match list_texts(a[1], ascii) {
                Some(rest) => Some(seq![show_spec(a[0], ascii)] + rest),
                None => None,
            }
        } else {
            None
        },
        _ => None,
    }
}

/// `show_all` prints element by element.
pub proof fn lemma_show_all(ts: Seq<TermV>, ascii: bool)
    ensures
        show_all(ts, ascii).len() == ts.len(),
        forall|i: int| 0 <= i < ts.len() ==> #[trigger] show_all(ts, ascii)[i] == show_spec(ts[i], ascii),
    decreases ts.len(),
{
    if ts.len() > 0 {
        lemma_show_all(ts.drop_last(), ascii);
    }
}

/// Is `name` one of the binary operators printed infix?
fn is_operator(name: &str) -> (r: bool)
    ensures
        r == is_operator_spec(name@),
{
    str_eq(name, "+") || str_eq(name, "-") || str_eq(name, "*") || str_eq(name, "/") || str_eq(
        name,
        "%",
    ) || str_eq(name, "==") || str_eq(name, "!=") || str_eq(name, "<") || str_eq(name, "<=")
        || str_eq(name, ">") || str_eq(name, ">=") || str_eq(name, "++") || str_eq(name, "::")
}

/// Join the strings with `, `.
pub fn join_comma(parts: &Vec<String>) -> (r: String)
    ensures
        r@ == join(names_view(parts@), comma_sep()),
{
    let ghost ps = names_view(parts@);
    let mut out = String::new();
    let mut i: usize = 0;
    while i < parts.len()
        invariant
            i <= parts.len(),
            ps == names_view(parts@),
            out@ == join(ps.take(i as int), comma_sep()),
        decreases parts.len() - i,
    {
        if i > 0 {
            push_char(&mut out, ',');
            push_char(&mut out, ' ');
        }
        push_str(&mut out, parts[i].as_str());
        proof {
            let t = ps.take(i + 1);
            assert(t.drop_last() =~= ps.take(i as int));
            assert(t.last() == parts@[i as int]@);
            if i == 0 {
                assert(out@ =~= t[0]);
            } else {
                assert(out@ =~= join(ps.take(i as int), comma_sep()) + comma_sep() + t.last());
            }
        }
        i = i + 1;
    }
    proof {
        assert(ps.take(i as int) =~= ps);
    }
    out
}

/// A number's digits, turned Devanagari unless `ascii`.
fn numeral(s: String, ascii: bool) -> (r: String)
    ensures
        r@ == numeral_text(s@, ascii),
{
    if ascii {
        s
    } else {
        devanagari_digits(s.as_str())
    }
}

/// Print each term.
fn show_terms(ts: &Vec<Term>, ascii: bool) -> (r: Vec<String>)
    ensures
        names_view(r@) == show_all(terms_view(ts@), ascii),
    decreases ts, 0int,
{
    proof {
        lemma_terms_view(ts@);
        lemma_show_all(terms_view(ts@), ascii);
    }
    let mut out: Vec<String> = Vec::new();
    let mut i: usize = 0;
    while i < ts.len()
        invariant
            i <= ts.len(),
            out.len() == i,
            terms_view(ts@).len() == ts.len(),
            show_all(terms_view(ts@), ascii).len() == ts.len(),
            forall|j: int| 0 <= j < ts.len() ==> #[trigger] terms_view(ts@)[j] == ts@[j]@,
            forall|j: int|
                0 <= j < ts.len() ==> #[trigger] show_all(terms_view(ts@), ascii)[j] == show_spec(
                    terms_view(ts@)[j],
                    ascii,
                ),
            forall|j: int| 0 <= j < i ==> (#[trigger] out@[j])@ == show_spec(ts@[j]@, ascii),
        decreases ts.len() - i,
    {
        let s = show(&ts[i], ascii);
        out.push(s);
        i = i + 1;
    }
    proof {
        assert(names_view(out@) =~= show_all(terms_view(ts@), ascii));
    }
    out
}

/// Print each map entry as `key: value`.
fn show_kosha_entries(es: &Vec<(Term, Term)>, ascii: bool) -> (r: Vec<String>)
    ensures
        names_view(r@) == show_entries(entries_view(es@), ascii),
    decreases es, 0int,
{
    proof {
        lemma_entries_view(es@);
    }
    let ghost ev = entries_view(es@);
    let mut out: Vec<String> = Vec::new();
    let mut i: usize = 0;
    while i < es.len()
        invariant
            i <= es.len(),
            out.len() == i,
            ev == entries_view(es@),
            ev.len() == es.len(),
            forall|j: int| 0 <= j < es.len() ==> #[trigger] ev[j] == (es@[j].0@, es@[j].1@),
            names_view(out@) == show_entries(ev.take(i as int), ascii),
        decreases es.len() - i,
    {
        let k = &es[i].0;
        let mut s = match k {
            Term::Str(text) => text.clone(),
            _ => show(k, ascii),
        };
        push_char(&mut s, ':');
        push_char(&mut s, ' ');
        let v = show(&es[i].1, ascii);
        push_str(&mut s, v.as_str());
        proof {
            let kv = ev[i as int].0;
            let key_spec = match kv {
                TermV::Str(t) => t,
                _ => show_spec(kv, ascii),
            };
            assert(s@ =~= key_spec + seq![':', ' '] + show_spec(ev[i as int].1, ascii));
        }
        let ghost before = out@;
        out.push(s);
        proof {
            let t = ev.take(i + 1);
            assert(t.drop_last() =~= ev.take(i as int));
            assert(t.last() == ev[i as int]);
            assert(names_view(out@) =~= names_view(before).push(out@[i as int]@));
        }
        i = i + 1;
    }
    proof {
        assert(ev.take(i as int) =~= ev);
    }
    out
}

/// The printed items of a proper cons-list, or `None`.
fn show_list_items(t: &Term, ascii: bool) -> (r: Option<Vec<String>>)
    ensures
        match r {
            Some(items) => list_texts(t@, ascii) == Some(names_view(items@)),
            None => list_texts(t@, ascii) == None::<Seq<Seq<char>>>,
        },
    decreases t, 0int,
{
    match t {
        Term::Sym(n, a) => {
            proof {
                lemma_terms_view(a@);
            }
            if str_eq(n.as_str(), "रिक्त") && a.len() == 0 {
                let v: Vec<String> = Vec::new();
                proof {
                    assert(names_view(v@) =~= Seq::<Seq<char>>::empty());
                }
                Some(v)
            } else if str_eq(n.as_str(), "युग्म") && a.len() == 2 {
                match show_list_items(&a[1], ascii) {
                    Some(mut rest) => {
                        let head = show(&a[0], ascii);
                        let ghost rest_view = names_view(rest@);
                        let mut out: Vec<String> = Vec::new();
                        out.push(head);
                        out.append(&mut rest);
                        proof {
                            assert(names_view(out@) =~= seq![show_spec(a@[0]@, ascii)] + rest_view);
                        }
                        Some(out)
                    },
                    None => None,
                }
            } else {
                None
            }
        },
        _ => None,
    }
}

/// Does the spelling contain `.`, `e` or `E`?
pub(crate) fn has_point_or_exponent_exec(s: &str) -> (r: bool)
    ensures
        r == has_point_or_exponent(s@),
{
    let cs = chars_of(s);
    let mut i: usize = 0;
    while i < cs.len()
        invariant
            cs@ == s@,
            i <= cs.len(),
            forall|j: int| 0 <= j < i ==> !(cs@[j] == '.' || cs@[j] == 'e' || cs@[j] == 'E'),
        decreases cs.len() - i,
    {
        if cs[i] == '.' || cs[i] == 'e' || cs[i] == 'E' {
            return true;
        }
        i = i + 1;
    }
    false
}

/// The printed form of a term: numbers in Devanagari digits unless
/// `ascii`, strings quoted, variables with `?`, cons-lists as `[…]`,
/// tuples as `(…)`, the binary operators infix.
pub fn show(term: &Term, ascii: bool) -> (r: String)
    ensures
        r@ == show_spec(term@, ascii),
    decreases term, 1int,
{
    match term {
        Term::Int(n) => numeral(BigInt::from_i64(*n).to_decimal_string(), ascii),
        Term::Big(b) => numeral(b.to_decimal_string(), ascii),
        Term::Float(f) => {
            let mut s = f.text.clone();
            if f.is_finite() && !has_point_or_exponent_exec(f.text.as_str()) {
                push_char(&mut s, '.');
                push_char(&mut s, '0');
            }
            proof {
                if is_finite_bits(f.bits) && !has_point_or_exponent(f.text@) {
                    assert(s@ =~= f.text@ + seq!['.', '0']);
                }
            }
            numeral(s, ascii)
        },
        Term::Str(s) => {
            let mut out = String::new();
            push_char(&mut out, '"');
            push_str(&mut out, s.as_str());
            push_char(&mut out, '"');
            proof {
                assert(out@ =~= seq!['"'] + s@ + seq!['"']);
            }
            out
        },
        Term::Var(v) => {
            let mut out = String::new();
            push_char(&mut out, '?');
            push_str(&mut out, v.as_str());
            proof {
                assert(out@ =~= seq!['?'] + v@);
            }
            out
        },
        Term::Lam(params, body) => {
            let mut ps: Vec<String> = Vec::new();
            let mut i: usize = 0;
            while i < params.len()
                invariant
                    i <= params.len(),
                    ps.len() == i,
                    forall|j: int| 0 <= j < i ==> (#[trigger] ps@[j])@ == seq!['?'] + params@[j]@,
                decreases params.len() - i,
            {
                let mut p = String::new();
                push_char(&mut p, '?');
                push_str(&mut p, params[i].as_str());
                proof {
                    assert(p@ =~= seq!['?'] + params@[i as int]@);
                }
                ps.push(p);
                i = i + 1;
            }
            let mut out = String::new();
            push_char(&mut out, '(');
            let joined = join_comma(&ps);
            push_str(&mut out, joined.as_str());
            push_str(&mut out, ") => ");
            let b = show(body, ascii);
            push_str(&mut out, b.as_str());
            proof {
                reveal_strlit(") => ");
                assert(names_view(ps@) =~= names_view(params@).map_values(
                    |p: Seq<char>| seq!['?'] + p,
                ));
                assert(out@ =~= seq!['('] + joined@ + seq![')', ' ', '=', '>', ' '] + b@);
            }
            out
        },
        Term::App(f, args) => {
            let mut out = String::new();
            let fs = show(f, ascii);
            let is_lam = match &**f {
                Term::Lam(..) => true,
                _ => false,
            };
            if is_lam {
                push_char(&mut out, '(');
                push_str(&mut out, fs.as_str());
                push_char(&mut out, ')');
            } else {
                push_str(&mut out, fs.as_str());
            }
            let ghost head = out@;
            push_char(&mut out, '(');
            let parts = show_terms(args, ascii);
            let joined = join_comma(&parts);
            push_str(&mut out, joined.as_str());
            push_char(&mut out, ')');
            proof {
                if is_lam {
                    assert(head =~= seq!['('] + fs@ + seq![')']);
                } else {
                    assert(head =~= fs@);
                }
                assert(out@ =~= head + seq!['('] + joined@ + seq![')']);
            }
            out
        },
        Term::Kosha(entries) => {
            let parts = show_kosha_entries(entries, ascii);
            let joined = join_comma(&parts);
            let mut out = String::new();
            push_char(&mut out, '{');
            push_str(&mut out, joined.as_str());
            push_char(&mut out, '}');
            proof {
                assert(out@ =~= seq!['{'] + joined@ + seq!['}']);
            }
            out
        },
        Term::Sym(name, args) => {
            proof {
                lemma_terms_view(args@);
            }
            if let Some(items) = show_list_items(term, ascii) {
                let joined = join_comma(&items);
                let mut out = String::new();
                push_char(&mut out, '[');
                push_str(&mut out, joined.as_str());
                push_char(&mut out, ']');
                proof {
                    assert(out@ =~= seq!['['] + joined@ + seq![']']);
                }
                return out;
            }
            if args.len() >= 2 && str_eq(name.as_str(), "रचना") {
                let parts = show_terms(args, ascii);
                let joined = join_comma(&parts);
                let mut out = String::new();
                push_char(&mut out, '(');
                push_str(&mut out, joined.as_str());
                push_char(&mut out, ')');
                proof {
                    assert(out@ =~= seq!['('] + joined@ + seq![')']);
                }
                return out;
            }
            if args.len() == 2 && is_operator(name.as_str()) {
                let l = show(&args[0], ascii);
                let r = show(&args[1], ascii);
                let mut out = String::new();
                push_str(&mut out, l.as_str());
                push_char(&mut out, ' ');
                push_str(&mut out, name.as_str());
                push_char(&mut out, ' ');
                push_str(&mut out, r.as_str());
                proof {
                    assert(out@ =~= l@ + seq![' '] + name@ + seq![' '] + r@);
                }
                return out;
            }
            if args.len() == 0 {
                return name.clone();
            }
            let parts = show_terms(args, ascii);
            let joined = join_comma(&parts);
            let mut out = String::new();
            push_str(&mut out, name.as_str());
            push_char(&mut out, '(');
            push_str(&mut out, joined.as_str());
            push_char(&mut out, ')');
            proof {
                assert(out@ =~= name@ + seq!['('] + joined@ + seq![')']);
            }
            out
        },
    }
}

/// Numbers print in Devanagari digits by default: for a number, the
/// default form is the ASCII form with each digit turned Devanagari.
pub proof fn lemma_numbers_print_in_devanagari(t: TermV)
    requires
        t is Int || t is Big || t is Float,
    ensures
        show_spec(t, false) == show_spec(t, true).map_values(|c: char| devanagari_char(c)),
{
}

/// A rule as the REPL lists it: `  lhs | guard -> rhs`.
pub open spec fn rule_line_spec(r: RuleV, ascii: bool) -> Seq<char> {
    "  "@ + show_spec(r.lhs, ascii) + match r.guard {
        Some(g) => " | "@ + show_spec(g, ascii),
        None => Seq::empty(),
    } + " -> "@ + show_spec(r.rhs, ascii)
}

/// The line listing a rule.
pub fn rule_line(r: &Rule, ascii: bool) -> (s: String)
    ensures
        s@ == rule_line_spec(r@, ascii),
{
    let mut out = String::new();
    push_str(&mut out, "  ");
    push_str(&mut out, show(&r.lhs, ascii).as_str());
    let ghost before_guard = out@;
    match &r.guard {
        Some(g) => {
            push_str(&mut out, " | ");
            push_str(&mut out, show(g, ascii).as_str());
        },
        None => {},
    }
    push_str(&mut out, " -> ");
    push_str(&mut out, show(&r.rhs, ascii).as_str());
    proof {
        match r@.guard {
            Some(g) => {
                assert(out@ =~= "  "@ + show_spec(r@.lhs, ascii) + (" | "@ + show_spec(g, ascii)) + " -> "@
                    + show_spec(r@.rhs, ascii));
            },
            None => {
                assert(out@ =~= "  "@ + show_spec(r@.lhs, ascii) + Seq::<char>::empty() + " -> "@ + show_spec(
                    r@.rhs,
                    ascii,
                ));
            },
        }
    }
    out
}

/// How an evaluation is reported: `input  ⇒  normal form`, then the steps
/// when asked for, then a warning when the fuel ran out.
pub open spec fn result_line_spec(input: TermV, o: OutcomeV, ascii: bool, steps: bool) -> Seq<char> {
    show_spec(input, ascii) + "  ⇒  "@ + show_spec(o.term, ascii) + (if steps {
        "   ["@ + nat_to_decimal(o.steps) + " steps]"@
    } else {
        Seq::empty()
    }) + (if o.out_of_fuel {
        "   ⚠ out of fuel"@
    } else {
        Seq::empty()
    })
}

/// The report of an evaluation.
pub fn result_line(input: &Term, o: &Outcome, ascii: bool, steps: bool) -> (s: String)
    ensures
        s@ == result_line_spec(input@, o@, ascii, steps),
{
    let mut out = String::new();
    push_str(&mut out, show(input, ascii).as_str());
    push_str(&mut out, "  ⇒  ");
    push_str(&mut out, show(&o.term, ascii).as_str());
    let ghost base = out@;
    if steps {
        push_str(&mut out, "   [");
        crate::decimal::push_decimal(&mut out, o.steps);
        push_str(&mut out, " steps]");
    }
    let ghost with_steps = out@;
    proof {
        if steps {
            assert(with_steps =~= base + ("   ["@ + nat_to_decimal(o.steps as nat) + " steps]"@));
        } else {
            assert(with_steps =~= base + Seq::<char>::empty());
        }
    }
    if o.out_of_fuel {
        push_str(&mut out, "   ⚠ out of fuel");
    }
    proof {
        if o.out_of_fuel {
            assert(out@ =~= with_steps + "   ⚠ out of fuel"@);
        } else {
            assert(out@ =~= with_steps + Seq::<char>::empty());
        }
    }
    out
}

} // verus!
