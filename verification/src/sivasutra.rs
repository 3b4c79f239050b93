//! The śivasūtra inventory and pratyāhāra: a class of sounds named by a
//! starting sound and a marker (इत्), taking every sound from the start up
//! to the end of the first inventory line that carries the marker.
use crate::ast::{clone_names, names_view, Term, TermV, terms_view};
use crate::text::str_eq;
use vstd::prelude::*;

verus! {

/// One line of the inventory: its sounds and the marker that closes it.
#[derive(Debug)]
pub struct SivaSutra {
    pub sounds: Vec<String>,
    pub marker: String,
}

pub struct SivaSutraV {
    pub sounds: Seq<Seq<char>>,
    pub marker: Seq<char>,
}

impl View for SivaSutra {
    type V = SivaSutraV;

    open spec fn view(&self) -> SivaSutraV {
        SivaSutraV { sounds: names_view(self.sounds@), marker: self.marker@ }
    }
}

impl Clone for SivaSutra {
    fn clone(&self) -> (r: SivaSutra)
        ensures
            r@ == self@,
    {
        SivaSutra { sounds: clone_names(&self.sounds), marker: self.marker.clone() }
    }
}

/// A pratyāhāra: the starting sound and the closing marker.
#[derive(Debug)]
pub struct Pratyahara {
    pub start: String,
    pub marker: String,
}

pub struct PratyaharaV {
    pub start: Seq<char>,
    pub marker: Seq<char>,
}

impl View for Pratyahara {
    type V = PratyaharaV;

    open spec fn view(&self) -> PratyaharaV {
        PratyaharaV { start: self.start@, marker: self.marker@ }
    }
}

impl Clone for Pratyahara {
    fn clone(&self) -> (r: Pratyahara)
        ensures
            r@ == self@,
    {
        Pratyahara { start: self.start.clone(), marker: self.marker.clone() }
    }
}

/// The views of the inventory's lines.
pub open spec fn inventory_view(inv: Seq<SivaSutra>) -> Seq<SivaSutraV> {
    inv.map_values(|s: SivaSutra| s@)
}

/// The first position at or after `j` where `s` occurs.
pub open spec fn index_from(ns: Seq<Seq<char>>, j: int, s: Seq<char>) -> Option<int>
    decreases ns.len() - j,
{
    if j < 0 || j >= ns.len() {
        None
    } else if ns[j] == s {
        Some(j)
    } else {
        index_from(ns, j + 1, s)
    }
}

/// The sounds of the lines from `i` through the first of them whose marker
/// is `m`; `None` where no such line follows.
pub open spec fn sounds_through(inv: Seq<SivaSutraV>, i: int, m: Seq<char>) -> Option<Seq<Seq<char>>>
    decreases inv.len() - i,
{
    if i < 0 || i >= inv.len() {
        None
    } else if inv[i].marker == m {
        Some(inv[i].sounds)
    } else {
        match sounds_through(inv, i + 1, m) {
            Some(rest) => Some(inv[i].sounds + rest),
            None => None,
        }
    }
}

/// The pratyāhāra `(start, m)` looked for from line `i`: from the first
/// line holding `start`, the sounds from `start` on through the first line
/// (that one or a later one) whose marker is `m`.
pub open spec fn pratyahara_from(inv: Seq<SivaSutraV>, i: int, start: Seq<char>, m: Seq<char>) -> Option<
    Seq<Seq<char>>,
>
    decreases inv.len() - i,
{
    if i < 0 || i >= inv.len() {
        None
    } else {
        match index_from(inv[i].sounds, 0, start) {
            Some(p) => if inv[i].marker == m {
                Some(inv[i].sounds.skip(p))
            } else {
                match sounds_through(inv, i + 1, m) {
                    Some(rest) => Some(inv[i].sounds.skip(p) + rest),
                    None => None,
                }
            },
            None => pratyahara_from(inv, i + 1, start, m),
        }
    }
}

/// The sounds that the pratyāhāra `(start, m)` names in the inventory, or
/// `None` where it cannot be derived: `start` is in no line, or no line from
/// there on carries the marker `m`.
pub open spec fn pratyahara_spec(inv: Seq<SivaSutraV>, start: Seq<char>, m: Seq<char>) -> Option<
    Seq<Seq<char>>,
> {
    pratyahara_from(inv, 0, start, m)
}

/// The names in an optional list, by view.
pub open spec fn opt_names_view(r: Option<Vec<String>>) -> Option<Seq<Seq<char>>> {
    match r {
        Some(v) => Some(names_view(v@)),
        None => None,
    }
}

/// Each sound as a nullary atom.
pub open spec fn sound_atoms(ns: Seq<Seq<char>>) -> Seq<TermV> {
    ns.map_values(|n: Seq<char>| TermV::Sym(n, Seq::empty()))
}

/// The position of `s` in `ns`.
fn index_of(ns: &Vec<String>, s: &str) -> (r: Option<usize>)
    ensures
        match r {
            Some(p) => p < ns.len() && index_from(names_view(ns@), 0, s@) == Some(p as int),
            None => index_from(names_view(ns@), 0, s@) is None,
        },
{
    let ghost nv = names_view(ns@);
    let mut j: usize = 0;
    while j < ns.len()
        invariant
            j <= ns.len(),
            nv == names_view(ns@),
            index_from(nv, 0, s@) == index_from(nv, j as int, s@),
        decreases ns.len() - j,
    {
        if str_eq(ns[j].as_str(), s) {
            return Some(j);
        }
        j = j + 1;
    }
    None
}

/// The names of `ns` from position `p` on.
fn names_from(ns: &Vec<String>, p: usize) -> (r: Vec<String>)
    requires
        p <= ns.len(),
    ensures
        names_view(r@) == names_view(ns@).skip(p as int),
{
    let mut out: Vec<String> = Vec::new();
    let mut j: usize = p;
    while j < ns.len()
        invariant
            p <= j <= ns.len(),
            names_view(out@) == names_view(ns@).subrange(p as int, j as int),
        decreases ns.len() - j,
    {
        let ghost before = out@;
        out.push(ns[j].clone());
        proof {
            assert(names_view(out@) =~= names_view(before).push(ns@[j as int]@));
            assert(names_view(ns@).subrange(p as int, j + 1) =~= names_view(ns@).subrange(p as int, j as int).push(
                ns@[j as int]@,
            ));
        }
        j = j + 1;
    }
    proof {
        assert(names_view(ns@).subrange(p as int, j as int) =~= names_view(ns@).skip(p as int));
    }
    out
}

/// `front` followed by `back`.
fn concat_names(front: Vec<String>, back: Vec<String>) -> (r: Vec<String>)
    ensures
        names_view(r@) == names_view(front@) + names_view(back@),
{
    let mut out = front;
    let mut rest = back;
    let ghost a = out@;
    let ghost b = rest@;
    out.append(&mut rest);
    proof {
        assert(names_view(a + b) =~= names_view(a) + names_view(b));
    }
    out
}

/// The sounds of the lines from `i` through the first whose marker is `m`.
fn sounds_through_exec(inv: &Vec<SivaSutra>, i: usize, m: &str) -> (r: Option<Vec<String>>)
    requires
        i <= inv.len(),
    ensures
        opt_names_view(r) == sounds_through(inventory_view(inv@), i as int, m@),
    decreases inv.len() - i,
{
    if i >= inv.len() {
        return None;
    }
    let line = &inv[i];
    proof {
        assert(inventory_view(inv@)[i as int] == line@);
    }
    if str_eq(line.marker.as_str(), m) {
        return Some(clone_names(&line.sounds));
    }
    match sounds_through_exec(inv, i + 1, m) {
        Some(rest) => Some(concat_names(clone_names(&line.sounds), rest)),
        None => None,
    }
}

/// The pratyāhāra `(start, m)` looked for from line `i`.
fn pratyahara_from_exec(inv: &Vec<SivaSutra>, i: usize, start: &str, m: &str) -> (r: Option<Vec<String>>)
    requires
        i <= inv.len(),
    ensures
        opt_names_view(r) == pratyahara_from(inventory_view(inv@), i as int, start@, m@),
    decreases inv.len() - i,
{
    if i >= inv.len() {
        return None;
    }
    let line = &inv[i];
    proof {
        assert(inventory_view(inv@)[i as int] == line@);
    }
    match index_of(&line.sounds, start) {
        Some(p) => {
            let head = names_from(&line.sounds, p);
            if str_eq(line.marker.as_str(), m) {
                Some(head)
            } else {
                match sounds_through_exec(inv, i + 1, m) {
                    Some(rest) => Some(concat_names(head, rest)),
                    None => None,
                }
            }
        },
        None => pratyahara_from_exec(inv, i + 1, start, m),
    }
}

/// The sounds that the pratyāhāra `(start, marker)` names in the inventory,
/// or `None` where it cannot be derived.
pub fn pratyahara(inv: &Vec<SivaSutra>, start: &str, marker: &str) -> (r: Option<Vec<String>>)
    ensures
        opt_names_view(r) == pratyahara_spec(inventory_view(inv@), start@, marker@),
{
    pratyahara_from_exec(inv, 0, start, marker)
}

/// Each name as a nullary atom.
fn atoms_of(ns: &Vec<String>) -> (r: Vec<Term>)
    ensures
        terms_view(r@) == sound_atoms(names_view(ns@)),
{
    let mut out: Vec<Term> = Vec::new();
    let mut j: usize = 0;
    while j < ns.len()
        invariant
            j <= ns.len(),
            terms_view(out@) == sound_atoms(names_view(ns@).take(j as int)),
        decreases ns.len() - j,
    {
        let ghost before = out@;
        out.push(Term::con(ns[j].as_str()));
        proof {
            crate::ast::lemma_terms_view(out@);
            crate::ast::lemma_terms_view(before);
            assert(names_view(ns@).take(j + 1) =~= names_view(ns@).take(j as int).push(ns@[j as int]@));
            assert(terms_view(out@) =~= terms_view(before).push(TermV::Sym(ns@[j as int]@, Seq::empty())));
            assert(sound_atoms(names_view(ns@).take(j + 1)) =~= sound_atoms(names_view(ns@).take(j as int)).push(
                TermV::Sym(ns@[j as int]@, Seq::empty()),
            ));
        }
        j = j + 1;
    }
    proof {
        assert(names_view(ns@).take(j as int) =~= names_view(ns@));
    }
    out
}

/// The members of the class that a pratyāhāra names: its sounds as atoms,
/// none where it cannot be derived.
pub open spec fn pratyahara_members(inv: Seq<SivaSutraV>, start: Seq<char>, m: Seq<char>) -> Seq<TermV> {
    match pratyahara_spec(inv, start, m) {
        Some(ns) => sound_atoms(ns),
        None => Seq::empty(),
    }
}

/// The members of the pratyāhāra `(start, marker)` as atoms (none where it
/// cannot be derived).
pub fn pratyahara_atoms(inv: &Vec<SivaSutra>, start: &str, marker: &str) -> (r: Vec<Term>)
    ensures
        terms_view(r@) == pratyahara_members(inventory_view(inv@), start@, marker@),
{
    match pratyahara(inv, start, marker) {
        Some(ns) => atoms_of(&ns),
        None => {
            let out: Vec<Term> = Vec::new();
            proof {
                assert(terms_view(out@) =~= Seq::<TermV>::empty());
            }
            out
        },
    }
}

} // verus!
