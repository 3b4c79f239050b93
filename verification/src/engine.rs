//! The rewrite engine. Reduction is leftmost-outermost, so `यदि` stays lazy;
//! conflicts are resolved by paratva (the latest-declared matching rule
//! wins). Beyond user rules the engine β-reduces lambdas, saturates function
//! references, applies strict builtins and runs sequence systems.
//!
//! Reduction is call-by-need: when a rule fires or a lambda β-reduces, a
//! variable used more than once in the body is bound to one shared cell of a
//! heap, so the expression behind it is reduced at most once. A term under
//! reduction is a `Node`, which may point into that heap; the normal form
//! handed back is a share-free `Term`.
//!
//! Following a shared cell uses one unit of a depth budget, and so does a
//! guard evaluated inside a rewrite step. The entry points start from the
//! whole `u64` range, which no evaluation reaches before the stack runs out.
use crate::ast::{
    clone_names, float_bits_eq, lemma_entries_view, lemma_terms_view, names_view, entries_view,
    FloatLit, Term, TermV, terms_view,
};
use crate::ast::{opt_term_view, rules_view, Program, Rule, RuleV};
use crate::bigint::{value_within_limb_limit, BigInt};
use crate::builtins::{apply, apply_spec, is_builtin_spec, limbs_fit, make_list_v, Applied, AppliedV};
use crate::rewrite::{subst_spec, Bindings};
use crate::krama::{classes_view, rewrite_spec, systems_view, Class, ClassV, SeqSystem, SeqSystemV};
use vstd::prelude::*;

verus! {

/// A term under reduction: a `Term` that may also point to a shared cell.
pub enum Node {
    Var(String),
    Int(i64),
    Big(BigInt),
    Float(FloatLit),
    Str(String),
    Sym(String, Vec<Node>),
    Lam(Vec<String>, Box<Node>),
    App(Box<Node>, Vec<Node>),
    Kosha(Vec<(Node, Node)>),
    /// The cell at this index of the heap.
    Share(usize),
}

/// The mathematical shape of a node.
pub enum NodeV {
    Var(Seq<char>),
    Int(int),
    Big(int),
    Float(u64, Seq<char>),
    Str(Seq<char>),
    Sym(Seq<char>, Seq<NodeV>),
    Lam(Seq<Seq<char>>, Box<NodeV>),
    App(Box<NodeV>, Seq<NodeV>),
    Kosha(Seq<(NodeV, NodeV)>),
    Share(nat),
}

/// The view of a node.
pub open spec fn node_view(n: Node) -> NodeV
    decreases n,
{
    match n {
        Node::Var(v) => NodeV::Var(v@),
        Node::Int(x) => NodeV::Int(x as int),
        Node::Big(b) => NodeV::Big(b@),
        Node::Float(f) => NodeV::Float(f.bits, f.text@),
        Node::Str(s) => NodeV::Str(s@),
        Node::Sym(f, xs) => NodeV::Sym(f@, nodes_view(xs@)),
        Node::Lam(ps, body) => NodeV::Lam(names_view(ps@), Box::new(node_view(*body))),
        Node::App(f, xs) => NodeV::App(Box::new(node_view(*f)), nodes_view(xs@)),
        Node::Kosha(es) => NodeV::Kosha(nentries_view(es@)),
        Node::Share(i) => NodeV::Share(i as nat),
    }
}

/// The views of a sequence of nodes.
pub open spec fn nodes_view(ns: Seq<Node>) -> Seq<NodeV>
    decreases ns,
{
    if ns.len() == 0 {
        Seq::empty()
    } else {
        nodes_view(ns.drop_last()).push(node_view(ns.last()))
    }
}

/// The views of a sequence of map entries of nodes.
pub open spec fn nentries_view(es: Seq<(Node, Node)>) -> Seq<(NodeV, NodeV)>
    decreases es,
{
    if es.len() == 0 {
        Seq::empty()
    } else {
        nentries_view(es.drop_last()).push((node_view(es.last().0), node_view(es.last().1)))
    }
}

impl View for Node {
    type V = NodeV;

    open spec fn view(&self) -> NodeV {
        node_view(*self)
    }
}

/// `nodes_view` keeps the length and views element by element.
pub proof fn lemma_nodes_view(ns: Seq<Node>)
    ensures
        nodes_view(ns).len() == ns.len(),
        forall|i: int| 0 <= i < ns.len() ==> #[trigger] nodes_view(ns)[i] == ns[i]@,
    decreases ns.len(),
{
    if ns.len() > 0 {
        lemma_nodes_view(ns.drop_last());
    }
}

/// `nentries_view` keeps the length and views entry by entry.
pub proof fn lemma_nentries_view(es: Seq<(Node, Node)>)
    ensures
        nentries_view(es).len() == es.len(),
        forall|i: int|
            0 <= i < es.len() ==> #[trigger] nentries_view(es)[i] == (es[i].0@, es[i].1@),
    decreases es.len(),
{
    if es.len() > 0 {
        lemma_nentries_view(es.drop_last());
    }
}

// ---------------------------------------------------------------------------
// Terms into nodes and back.
// ---------------------------------------------------------------------------

/// A share-free term as a node.
pub open spec fn embed(t: TermV) -> NodeV
    decreases t,
{
    match t {
        TermV::Var(v) => NodeV::Var(v),
        TermV::Int(x) => NodeV::Int(x),
        TermV::Big(x) => NodeV::Big(x),
        TermV::Float(b, s) => NodeV::Float(b, s),
        TermV::Str(s) => NodeV::Str(s),
        TermV::Sym(f, xs) => NodeV::Sym(f, embed_all(xs)),
        TermV::Lam(ps, body) => NodeV::Lam(ps, Box::new(embed(*body))),
        TermV::App(f, xs) => NodeV::App(Box::new(embed(*f)), embed_all(xs)),
        TermV::Kosha(es) => NodeV::Kosha(embed_entries(es)),
    }
}

pub open spec fn embed_all(ts: Seq<TermV>) -> Seq<NodeV>
    decreases ts,
{
    if ts.len() == 0 {
        Seq::empty()
    } else {
        embed_all(ts.drop_last()).push(embed(ts.last()))
    }
}

pub open spec fn embed_entries(es: Seq<(TermV, TermV)>) -> Seq<(NodeV, NodeV)>
    decreases es,
{
    if es.len() == 0 {
        Seq::empty()
    } else {
        embed_entries(es.drop_last()).push((embed(es.last().0), embed(es.last().1)))
    }
}

proof fn lemma_embed_all(ts: Seq<TermV>)
    ensures
        embed_all(ts).len() == ts.len(),
        forall|i: int| 0 <= i < ts.len() ==> #[trigger] embed_all(ts)[i] == embed(ts[i]),
    decreases ts.len(),
{
    if ts.len() > 0 {
        lemma_embed_all(ts.drop_last());
    }
}

proof fn lemma_embed_entries(es: Seq<(TermV, TermV)>)
    ensures
        embed_entries(es).len() == es.len(),
        forall|i: int|
            0 <= i < es.len() ==> #[trigger] embed_entries(es)[i] == (embed(es[i].0), embed(es[i].1)),
    decreases es.len(),
{
    if es.len() > 0 {
        lemma_embed_entries(es.drop_last());
    }
}

/// A term as a node.
pub fn node_of(t: &Term) -> (n: Node)
    ensures
        n@ == embed(t@),
    decreases t,
{
    match t {
        Term::Var(v) => Node::Var(v.clone()),
        Term::Int(x) => Node::Int(*x),
        Term::Big(b) => Node::Big(b.clone()),
        Term::Float(f) => Node::Float(f.copy()),
        Term::Str(s) => Node::Str(s.clone()),
        Term::Sym(f, xs) => Node::Sym(f.clone(), nodes_of(xs)),
        Term::Lam(ps, body) => Node::Lam(clone_names(ps), Box::new(node_of(body))),
        Term::App(f, xs) => {
            let g = node_of(f);
            Node::App(Box::new(g), nodes_of(xs))
        },
        Term::Kosha(es) => Node::Kosha(nentries_of(es)),
    }
}

/// Map entries of terms as entries of nodes.
fn nentries_of(es: &Vec<(Term, Term)>) -> (r: Vec<(Node, Node)>)
    ensures
        nentries_view(r@) == embed_entries(entries_view(es@)),
    decreases es,
{
    let mut out: Vec<(Node, Node)> = Vec::new();
    let mut i: usize = 0;
    proof {
        lemma_entries_view(es@);
    }
    while i < es.len()
        invariant
            i <= es.len(),
            out.len() == i,
            entries_view(es@).len() == es.len(),
            forall|j: int|
                0 <= j < es.len() ==> #[trigger] entries_view(es@)[j] == (es@[j].0@, es@[j].1@),
            forall|j: int|
                0 <= j < i ==> (#[trigger] out@[j]).0@ == embed(es@[j].0@) && out@[j].1@ == embed(
                    es@[j].1@,
                ),
        decreases es.len() - i,
    {
        let k = node_of(&es[i].0);
        let v = node_of(&es[i].1);
        out.push((k, v));
        i = i + 1;
    }
    proof {
        lemma_nentries_view(out@);
        lemma_embed_entries(entries_view(es@));
        assert(nentries_view(out@) =~= embed_entries(entries_view(es@)));
    }
    out
}

/// Terms as nodes.
pub fn nodes_of(ts: &Vec<Term>) -> (r: Vec<Node>)
    ensures
        nodes_view(r@) == embed_all(terms_view(ts@)),
    decreases ts,
{
    let mut out: Vec<Node> = Vec::new();
    let mut i: usize = 0;
    while i < ts.len()
        invariant
            i <= ts.len(),
            out.len() == i,
            forall|j: int| 0 <= j < i ==> (#[trigger] out@[j])@ == embed(ts@[j]@),
        decreases ts.len() - i,
    {
        let n = node_of(&ts[i]);
        out.push(n);
        i = i + 1;
    }
    proof {
        lemma_nodes_view(out@);
        lemma_terms_view(ts@);
        lemma_embed_all(terms_view(ts@));
        assert(nodes_view(out@) =~= embed_all(terms_view(ts@)));
    }
    out
}

/// A copy of a node.
pub fn clone_node(n: &Node) -> (r: Node)
    ensures
        r@ == n@,
    decreases n,
{
    match n {
        Node::Var(v) => Node::Var(v.clone()),
        Node::Int(x) => Node::Int(*x),
        Node::Big(b) => Node::Big(b.clone()),
        Node::Float(f) => Node::Float(f.copy()),
        Node::Str(s) => Node::Str(s.clone()),
        Node::Sym(f, xs) => Node::Sym(f.clone(), clone_nodes(xs)),
        Node::Lam(ps, body) => Node::Lam(clone_names(ps), Box::new(clone_node(body))),
        Node::App(f, xs) => {
            let g = clone_node(f);
            Node::App(Box::new(g), clone_nodes(xs))
        },
        Node::Kosha(es) => Node::Kosha(clone_nentries(es)),
        Node::Share(i) => Node::Share(*i),
    }
}

/// Copies of map entries of nodes.
fn clone_nentries(es: &Vec<(Node, Node)>) -> (r: Vec<(Node, Node)>)
    ensures
        nentries_view(r@) == nentries_view(es@),
    decreases es,
{
    let mut out: Vec<(Node, Node)> = Vec::new();
    let mut i: usize = 0;
    while i < es.len()
        invariant
            i <= es.len(),
            out.len() == i,
            forall|j: int|
                0 <= j < i ==> (#[trigger] out@[j]).0@ == es@[j].0@ && out@[j].1@ == es@[j].1@,
        decreases es.len() - i,
    {
        let k = clone_node(&es[i].0);
        let v = clone_node(&es[i].1);
        out.push((k, v));
        i = i + 1;
    }
    proof {
        lemma_nentries_view(out@);
        lemma_nentries_view(es@);
        assert(nentries_view(out@) =~= nentries_view(es@));
    }
    out
}

/// Copies of nodes.
pub fn clone_nodes(ns: &Vec<Node>) -> (r: Vec<Node>)
    ensures
        nodes_view(r@) == nodes_view(ns@),
    decreases ns,
{
    let mut out: Vec<Node> = Vec::new();
    let mut i: usize = 0;
    while i < ns.len()
        invariant
            i <= ns.len(),
            out.len() == i,
            forall|j: int| 0 <= j < i ==> (#[trigger] out@[j])@ == ns@[j]@,
        decreases ns.len() - i,
    {
        let c = clone_node(&ns[i]);
        out.push(c);
        i = i + 1;
    }
    proof {
        lemma_nodes_view(out@);
        lemma_nodes_view(ns@);
        assert(nodes_view(out@) =~= nodes_view(ns@));
    }
    out
}

/// What a share stands for when it cannot be followed (a cell beyond the
/// heap, or a spent depth budget): the nameless constant.
pub open spec fn lost_share() -> TermV {
    TermV::Sym(Seq::empty(), Seq::empty())
}

/// The share-free term a node denotes: every shared cell replaced by its
/// current contents.
pub open spec fn strip_spec(h: Seq<NodeV>, n: NodeV, d: nat) -> TermV
    decreases d, n,
{
    match n {
        NodeV::Var(v) => TermV::Var(v),
        NodeV::Int(x) => TermV::Int(x),
        NodeV::Big(x) => TermV::Big(x),
        NodeV::Float(b, s) => TermV::Float(b, s),
        NodeV::Str(s) => TermV::Str(s),
        NodeV::Sym(f, xs) => TermV::Sym(f, strip_all(h, xs, d)),
        NodeV::Lam(ps, body) => TermV::Lam(ps, Box::new(strip_spec(h, *body, d))),
        NodeV::App(f, xs) => TermV::App(Box::new(strip_spec(h, *f, d)), strip_all(h, xs, d)),
        NodeV::Kosha(es) => TermV::Kosha(strip_entries(h, es, d)),
        NodeV::Share(i) => if d == 0 || i >= h.len() {
            lost_share()
        } else {
            strip_spec(h, h[i as int], (d - 1) as nat)
        },
    }
}

pub open spec fn strip_all(h: Seq<NodeV>, xs: Seq<NodeV>, d: nat) -> Seq<TermV>
    decreases d, xs,
{
    if xs.len() == 0 {
        Seq::empty()
    } else {
        strip_all(h, xs.drop_last(), d).push(strip_spec(h, xs.last(), d))
    }
}

pub open spec fn strip_entries(h: Seq<NodeV>, es: Seq<(NodeV, NodeV)>, d: nat) -> Seq<(TermV, TermV)>
    decreases d, es,
{
    if es.len() == 0 {
        Seq::empty()
    } else {
        strip_entries(h, es.drop_last(), d).push(
            (strip_spec(h, es.last().0, d), strip_spec(h, es.last().1, d)),
        )
    }
}

proof fn lemma_strip_all(h: Seq<NodeV>, xs: Seq<NodeV>, d: nat)
    ensures
        strip_all(h, xs, d).len() == xs.len(),
        forall|i: int| 0 <= i < xs.len() ==> #[trigger] strip_all(h, xs, d)[i] == strip_spec(h, xs[i], d),
    decreases xs.len(),
{
    if xs.len() > 0 {
        lemma_strip_all(h, xs.drop_last(), d);
    }
}

proof fn lemma_strip_entries(h: Seq<NodeV>, es: Seq<(NodeV, NodeV)>, d: nat)
    ensures
        strip_entries(h, es, d).len() == es.len(),
        forall|i: int|
            0 <= i < es.len() ==> #[trigger] strip_entries(h, es, d)[i] == (
                strip_spec(h, es[i].0, d),
                strip_spec(h, es[i].1, d),
            ),
    decreases es.len(),
{
    if es.len() > 0 {
        lemma_strip_entries(h, es.drop_last(), d);
    }
}

/// The share-free term a node denotes.
pub fn strip(heap: &Vec<Node>, n: &Node, depth: u64) -> (t: Term)
    ensures
        t@ == strip_spec(nodes_view(heap@), n@, depth as nat),
    decreases depth, n,
{
    let ghost h = nodes_view(heap@);
    proof {
        lemma_nodes_view(heap@);
    }
    match n {
        Node::Var(v) => Term::Var(v.clone()),
        Node::Int(x) => Term::Int(*x),
        Node::Big(b) => Term::Big(b.clone()),
        Node::Float(f) => Term::Float(f.copy()),
        Node::Str(s) => Term::Str(s.clone()),
        Node::Sym(f, xs) => Term::Sym(f.clone(), strip_nodes(heap, xs, depth)),
        Node::Lam(ps, body) => Term::Lam(clone_names(ps), Box::new(strip(heap, body, depth))),
        Node::App(f, xs) => {
            let g = strip(heap, f, depth);
            Term::App(Box::new(g), strip_nodes(heap, xs, depth))
        },
        Node::Kosha(es) => Term::Kosha(strip_nentries(heap, es, depth)),
        Node::Share(i) => {
            if depth == 0 || *i >= heap.len() {
                let none: Vec<Term> = Vec::new();
                let nameless = String::new();
                proof {
                    assert(terms_view(none@) =~= Seq::<TermV>::empty());
                    assert(nameless@ =~= Seq::<char>::empty());
                }
                Term::Sym(nameless, none)
            } else {
                strip(heap, &heap[*i], depth - 1)
            }
        },
    }
}

/// The share-free map entries that entries of nodes denote.
fn strip_nentries(heap: &Vec<Node>, es: &Vec<(Node, Node)>, depth: u64) -> (r: Vec<(Term, Term)>)
    ensures
        entries_view(r@) == strip_entries(nodes_view(heap@), nentries_view(es@), depth as nat),
    decreases depth, es,
{
    let ghost h = nodes_view(heap@);
    let mut out: Vec<(Term, Term)> = Vec::new();
    let mut i: usize = 0;
    proof {
        lemma_nentries_view(es@);
    }
    while i < es.len()
        invariant
            i <= es.len(),
            out.len() == i,
            h == nodes_view(heap@),
            forall|j: int|
                0 <= j < i ==> (#[trigger] out@[j]).0@ == strip_spec(h, es@[j].0@, depth as nat) && out@[j].1@
                    == strip_spec(h, es@[j].1@, depth as nat),
        decreases es.len() - i,
    {
        let k = strip(heap, &es[i].0, depth);
        let v = strip(heap, &es[i].1, depth);
        out.push((k, v));
        i = i + 1;
    }
    proof {
        lemma_entries_view(out@);
        lemma_strip_entries(h, nentries_view(es@), depth as nat);
        assert(entries_view(out@) =~= strip_entries(h, nentries_view(es@), depth as nat));
    }
    out
}

/// The share-free terms a list of nodes denotes.
pub fn strip_nodes(heap: &Vec<Node>, xs: &Vec<Node>, depth: u64) -> (r: Vec<Term>)
    ensures
        terms_view(r@) == strip_all(nodes_view(heap@), nodes_view(xs@), depth as nat),
    decreases depth, xs,
{
    let ghost h = nodes_view(heap@);
    let mut out: Vec<Term> = Vec::new();
    let mut i: usize = 0;
    while i < xs.len()
        invariant
            i <= xs.len(),
            out.len() == i,
            h == nodes_view(heap@),
            forall|j: int| 0 <= j < i ==> (#[trigger] out@[j])@ == strip_spec(h, xs@[j]@, depth as nat),
        decreases xs.len() - i,
    {
        let t = strip(heap, &xs[i], depth);
        out.push(t);
        i = i + 1;
    }
    proof {
        lemma_terms_view(out@);
        lemma_nodes_view(xs@);
        lemma_strip_all(h, nodes_view(xs@), depth as nat);
        assert(terms_view(out@) =~= strip_all(h, nodes_view(xs@), depth as nat));
    }
    out
}

/// A node with the shared cells at its root followed to their contents.
pub open spec fn peel_spec(h: Seq<NodeV>, n: NodeV, d: nat) -> NodeV
    decreases d,
{
    match n {
        NodeV::Share(i) => if d == 0 || i >= h.len() {
            n
        } else {
            peel_spec(h, h[i as int], (d - 1) as nat)
        },
        _ => n,
    }
}

/// Follow the shared cells at the root of a node; a copy of what is there.
pub fn peel(heap: &Vec<Node>, n: &Node, depth: u64) -> (r: Node)
    ensures
        r@ == peel_spec(nodes_view(heap@), n@, depth as nat),
    decreases depth,
{
    proof {
        lemma_nodes_view(heap@);
    }
    match n {
        Node::Share(i) => {
            if depth == 0 || *i >= heap.len() {
                Node::Share(*i)
            } else {
                peel(heap, &heap[*i], depth - 1)
            }
        },
        _ => clone_node(n),
    }
}

// ---------------------------------------------------------------------------
// Bindings, substitution and sharing.
// ---------------------------------------------------------------------------

/// The view of a list of bindings: names with the nodes bound to them.
pub open spec fn binds_view(b: Seq<(String, Node)>) -> Seq<(Seq<char>, NodeV)> {
    b.map_values(|e: (String, Node)| (e.0@, e.1@))
}

/// The node bound to `k`: the first binding for it.
pub open spec fn lookup(b: Seq<(Seq<char>, NodeV)>, k: Seq<char>) -> Option<NodeV>
    decreases b.len(),
{
    if b.len() == 0 {
        None
    } else if b[0].0 == k {
        Some(b[0].1)
    } else {
        lookup(b.drop_first(), k)
    }
}

/// The bindings for names outside `ks`, in order.
pub open spec fn unbind_all(b: Seq<(Seq<char>, NodeV)>, ks: Seq<Seq<char>>) -> Seq<(Seq<char>, NodeV)>
    decreases b.len(),
{
    if b.len() == 0 {
        b
    } else if ks.contains(b.last().0) {
        unbind_all(b.drop_last(), ks)
    } else {
        unbind_all(b.drop_last(), ks).push(b.last())
    }
}

/// `k` bound to `v`, replacing an earlier binding for `k`.
pub open spec fn rebind(b: Seq<(Seq<char>, NodeV)>, k: Seq<char>, v: NodeV) -> Seq<(Seq<char>, NodeV)> {
    unbind_all(b, seq![k]).push((k, v))
}

/// The node bound to `name`, copied.
fn lookup_bind(b: &Vec<(String, Node)>, name: &str) -> (r: Option<Node>)
    ensures
        match r {
            Some(n) => lookup(binds_view(b@), name@) == Some(n@),
            None => lookup(binds_view(b@), name@) == None::<NodeV>,
        },
{
    let ghost bv = binds_view(b@);
    let mut i: usize = 0;
    proof {
        assert(bv.skip(0) =~= bv);
    }
    while i < b.len()
        invariant
            i <= b.len(),
            bv == binds_view(b@),
            bv.len() == b.len(),
            lookup(bv, name@) == lookup(bv.skip(i as int), name@),
        decreases b.len() - i,
    {
        proof {
            assert(bv.skip(i as int).drop_first() =~= bv.skip(i + 1));
            assert(bv.skip(i as int)[0] == (b@[i as int].0@, b@[i as int].1@));
        }
        if crate::text::str_eq(b[i].0.as_str(), name) {
            return Some(clone_node(&b[i].1));
        }
        i = i + 1;
    }
    None
}

/// Is `name` among `ks`?
fn listed(ks: &Vec<String>, name: &str) -> (r: bool)
    ensures
        r == names_view(ks@).contains(name@),
{
    let mut i: usize = 0;
    while i < ks.len()
        invariant
            i <= ks.len(),
            forall|j: int| 0 <= j < i ==> ks@[j]@ != name@,
        decreases ks.len() - i,
    {
        if crate::text::str_eq(ks[i].as_str(), name) {
            proof {
                assert(names_view(ks@)[i as int] == name@);
            }
            return true;
        }
        i = i + 1;
    }
    proof {
        if names_view(ks@).contains(name@) {
            let j = choose|j: int| 0 <= j < names_view(ks@).len() && names_view(ks@)[j] == name@;
            assert(ks@[j]@ == name@);
        }
    }
    false
}

/// The bindings for names outside `ks`.
fn without_names(b: &Vec<(String, Node)>, ks: &Vec<String>) -> (r: Vec<(String, Node)>)
    ensures
        binds_view(r@) == unbind_all(binds_view(b@), names_view(ks@)),
{
    let ghost bv = binds_view(b@);
    let ghost kv = names_view(ks@);
    let mut out: Vec<(String, Node)> = Vec::new();
    let mut i: usize = 0;
    proof {
        assert(bv.take(0) =~= Seq::<(Seq<char>, NodeV)>::empty());
        assert(binds_view(out@) =~= Seq::<(Seq<char>, NodeV)>::empty());
    }
    while i < b.len()
        invariant
            i <= b.len(),
            bv == binds_view(b@),
            kv == names_view(ks@),
            binds_view(out@) == unbind_all(bv.take(i as int), kv),
        decreases b.len() - i,
    {
        proof {
            assert(bv.take(i + 1).drop_last() =~= bv.take(i as int));
            assert(bv.take(i + 1).last() == (b@[i as int].0@, b@[i as int].1@));
        }
        if !listed(ks, b[i].0.as_str()) {
            let ghost prev = out@;
            out.push((b[i].0.clone(), clone_node(&b[i].1)));
            proof {
                assert(binds_view(out@) =~= binds_view(prev).push((b@[i as int].0@, b@[i as int].1@)));
            }
        }
        i = i + 1;
    }
    proof {
        assert(bv.take(b.len() as int) =~= bv);
    }
    out
}

/// Substitute bindings into a template; lambda parameters shadow outer
/// bindings of the same names, and shared cells are left as they are.
pub open spec fn subst_node(n: NodeV, b: Seq<(Seq<char>, NodeV)>) -> NodeV
    decreases n,
{
    match n {
        NodeV::Var(v) => match lookup(b, v) {
            Some(x) => x,
            None => n,
        },
        NodeV::Sym(f, xs) => NodeV::Sym(f, subst_nodes(xs, b)),
        NodeV::Lam(ps, body) => NodeV::Lam(ps, Box::new(subst_node(*body, unbind_all(b, ps)))),
        NodeV::App(f, xs) => NodeV::App(Box::new(subst_node(*f, b)), subst_nodes(xs, b)),
        NodeV::Kosha(es) => NodeV::Kosha(subst_nentries(es, b)),
        _ => n,
    }
}

pub open spec fn subst_nodes(xs: Seq<NodeV>, b: Seq<(Seq<char>, NodeV)>) -> Seq<NodeV>
    decreases xs,
{
    if xs.len() == 0 {
        Seq::empty()
    } else {
        subst_nodes(xs.drop_last(), b).push(subst_node(xs.last(), b))
    }
}

pub open spec fn subst_nentries(es: Seq<(NodeV, NodeV)>, b: Seq<(Seq<char>, NodeV)>) -> Seq<(NodeV, NodeV)>
    decreases es,
{
    if es.len() == 0 {
        Seq::empty()
    } else {
        subst_nentries(es.drop_last(), b).push((subst_node(es.last().0, b), subst_node(es.last().1, b)))
    }
}

proof fn lemma_subst_nodes(xs: Seq<NodeV>, b: Seq<(Seq<char>, NodeV)>)
    ensures
        subst_nodes(xs, b).len() == xs.len(),
        forall|i: int| 0 <= i < xs.len() ==> #[trigger] subst_nodes(xs, b)[i] == subst_node(xs[i], b),
    decreases xs.len(),
{
    if xs.len() > 0 {
        lemma_subst_nodes(xs.drop_last(), b);
    }
}

proof fn lemma_subst_nentries(es: Seq<(NodeV, NodeV)>, b: Seq<(Seq<char>, NodeV)>)
    ensures
        subst_nentries(es, b).len() == es.len(),
        forall|i: int|
            0 <= i < es.len() ==> #[trigger] subst_nentries(es, b)[i] == (
                subst_node(es[i].0, b),
                subst_node(es[i].1, b),
            ),
    decreases es.len(),
{
    if es.len() > 0 {
        lemma_subst_nentries(es.drop_last(), b);
    }
}

/// Substitute bindings into a template node.
fn subst(n: &Node, b: &Vec<(String, Node)>) -> (r: Node)
    ensures
        r@ == subst_node(n@, binds_view(b@)),
    decreases n,
{
    match n {
        Node::Var(v) => match lookup_bind(b, v.as_str()) {
            Some(x) => x,
            None => Node::Var(v.clone()),
        },
        Node::Int(x) => Node::Int(*x),
        Node::Big(x) => Node::Big(x.clone()),
        Node::Float(f) => Node::Float(f.copy()),
        Node::Str(s) => Node::Str(s.clone()),
        Node::Share(i) => Node::Share(*i),
        Node::Sym(f, xs) => Node::Sym(f.clone(), subst_all(xs, b)),
        Node::Lam(ps, body) => {
            let inner = without_names(b, ps);
            let body2 = subst(body, &inner);
            Node::Lam(clone_names(ps), Box::new(body2))
        },
        Node::App(f, xs) => {
            let g = subst(f, b);
            Node::App(Box::new(g), subst_all(xs, b))
        },
        Node::Kosha(es) => Node::Kosha(subst_entries(es, b)),
    }
}

/// Substitute bindings into each node.
fn subst_all(xs: &Vec<Node>, b: &Vec<(String, Node)>) -> (r: Vec<Node>)
    ensures
        nodes_view(r@) == subst_nodes(nodes_view(xs@), binds_view(b@)),
    decreases xs,
{
    let mut out: Vec<Node> = Vec::new();
    let mut i: usize = 0;
    while i < xs.len()
        invariant
            i <= xs.len(),
            out.len() == i,
            forall|j: int| 0 <= j < i ==> (#[trigger] out@[j])@ == subst_node(xs@[j]@, binds_view(b@)),
        decreases xs.len() - i,
    {
        let t = subst(&xs[i], b);
        out.push(t);
        i = i + 1;
    }
    proof {
        lemma_nodes_view(out@);
        lemma_nodes_view(xs@);
        lemma_subst_nodes(nodes_view(xs@), binds_view(b@));
        assert(nodes_view(out@) =~= subst_nodes(nodes_view(xs@), binds_view(b@)));
    }
    out
}

/// Substitute bindings into each map entry.
fn subst_entries(es: &Vec<(Node, Node)>, b: &Vec<(String, Node)>) -> (r: Vec<(Node, Node)>)
    ensures
        nentries_view(r@) == subst_nentries(nentries_view(es@), binds_view(b@)),
    decreases es,
{
    let mut out: Vec<(Node, Node)> = Vec::new();
    let mut i: usize = 0;
    proof {
        lemma_nentries_view(es@);
    }
    while i < es.len()
        invariant
            i <= es.len(),
            out.len() == i,
            forall|j: int|
                0 <= j < i ==> (#[trigger] out@[j]).0@ == subst_node(es@[j].0@, binds_view(b@)) && out@[j].1@
                    == subst_node(es@[j].1@, binds_view(b@)),
        decreases es.len() - i,
    {
        let k = subst(&es[i].0, b);
        let v = subst(&es[i].1, b);
        out.push((k, v));
        i = i + 1;
    }
    proof {
        lemma_nentries_view(out@);
        lemma_subst_nentries(nentries_view(es@), binds_view(b@));
        assert(nentries_view(out@) =~= subst_nentries(nentries_view(es@), binds_view(b@)));
    }
    out
}

/// How often `v` occurs free in a template (map literals and shared cells
/// are not looked into).
pub open spec fn uses(n: NodeV, v: Seq<char>) -> nat
    decreases n,
{
    match n {
        NodeV::Var(x) => if x == v {
            1
        } else {
            0
        },
        NodeV::Sym(_, xs) => uses_all(xs, v),
        NodeV::App(f, xs) => uses(*f, v) + uses_all(xs, v),
        NodeV::Lam(ps, body) => if ps.contains(v) {
            0
        } else {
            uses(*body, v)
        },
        _ => 0,
    }
}

pub open spec fn uses_all(xs: Seq<NodeV>, v: Seq<char>) -> nat
    decreases xs,
{
    if xs.len() == 0 {
        0
    } else {
        uses_all(xs.drop_last(), v) + uses(xs.last(), v)
    }
}

/// A count, saturated at two.
pub open spec fn at_most_two(x: nat) -> nat {
    if x >= 2 {
        2
    } else {
        x
    }
}

/// How often `v` occurs in a template, saturated at two (enough to know
/// whether a binding is used more than once).
fn occurs(n: &Node, v: &str) -> (r: usize)
    ensures
        r == at_most_two(uses(n@, v@)),
    decreases n,
{
    match n {
        Node::Var(x) => if crate::text::str_eq(x.as_str(), v) {
            1
        } else {
            0
        },
        Node::Sym(_, xs) => occurs_in(xs, v, 0),
        Node::App(f, xs) => {
            let first = occurs(f, v);
            occurs_in(xs, v, first)
        },
        Node::Lam(ps, body) => if listed(ps, v) {
            0
        } else {
            occurs(body, v)
        },
        _ => 0,
    }
}

/// `start` plus the occurrences of `v` in `xs`, saturated at two.
fn occurs_in(xs: &Vec<Node>, v: &str, start: usize) -> (r: usize)
    requires
        start <= 2,
    ensures
        r == at_most_two((start + uses_all(nodes_view(xs@), v@)) as nat),
    decreases xs,
{
    let ghost xv = nodes_view(xs@);
    proof {
        lemma_nodes_view(xs@);
        assert(xv.take(0) =~= Seq::<NodeV>::empty());
    }
    if start >= 2 {
        return 2;
    }
    let mut n: usize = start;
    let mut i: usize = 0;
    while i < xs.len()
        invariant
            i <= xs.len(),
            xv == nodes_view(xs@),
            xv.len() == xs.len(),
            forall|j: int| 0 <= j < xs.len() ==> #[trigger] xv[j] == xs@[j]@,
            n < 2,
            n == start + uses_all(xv.take(i as int), v@),
        decreases xs.len() - i,
    {
        proof {
            assert(xv.take(i + 1).drop_last() =~= xv.take(i as int));
        }
        n = n + occurs(&xs[i], v);
        if n >= 2 {
            proof {
                lemma_uses_all_grows(xv, v@, i + 1);
            }
            return 2;
        }
        i = i + 1;
    }
    proof {
        assert(xv.take(xs.len() as int) =~= xv);
    }
    n
}

/// Counting over a longer prefix counts at least as much.
proof fn lemma_uses_all_grows(xs: Seq<NodeV>, v: Seq<char>, k: int)
    requires
        0 <= k <= xs.len(),
    ensures
        uses_all(xs.take(k), v) <= uses_all(xs, v),
    decreases xs.len() - k,
{
    if k < xs.len() {
        lemma_uses_all_grows(xs, v, k + 1);
        assert(xs.take(k + 1).drop_last() =~= xs.take(k));
    } else {
        assert(xs.take(k) =~= xs);
    }
}

/// Bind each value that the template uses more than once to a new shared
/// cell at the end of the heap, in binding order.
pub open spec fn share_spec(b: Seq<(Seq<char>, NodeV)>, tmpl: NodeV, h: Seq<NodeV>) -> (Seq<(Seq<char>, NodeV)>, Seq<NodeV>)
    decreases b.len(),
{
    if b.len() == 0 {
        (b, h)
    } else if uses(tmpl, b[0].0) >= 2 {
        let (rest, h2) = share_spec(b.drop_first(), tmpl, h.push(b[0].1));
        (seq![(b[0].0, NodeV::Share(h.len()))] + rest, h2)
    } else {
        let (rest, h2) = share_spec(b.drop_first(), tmpl, h);
        (seq![b[0]] + rest, h2)
    }
}

/// Share the bindings that `tmpl` uses more than once.
fn share_binds(b: Vec<(String, Node)>, tmpl: &Node, heap: &mut Vec<Node>) -> (r: Vec<(String, Node)>)
    ensures
        (binds_view(r@), nodes_view(final(heap)@)) == share_spec(binds_view(b@), tmpl@, nodes_view(old(heap)@)),
        final(heap).len() >= old(heap).len(),
{
    let ghost bv = binds_view(b@);
    let ghost h0 = nodes_view(heap@);
    let mut out: Vec<(String, Node)> = Vec::new();
    let ghost total = share_spec(bv, tmpl@, h0);
    let ghost bs = b@;
    proof {
        assert(bv.skip(0) =~= bv);
        assert(binds_view(out@) =~= Seq::<(Seq<char>, NodeV)>::empty());
    }
    for e in it: b
        invariant
            it.seq() == bs,
            bv == binds_view(bs),
            heap.len() >= old(heap).len(),
            ({
                let (r2, h2) = share_spec(bv.skip(it.index() as int), tmpl@, nodes_view(heap@));
                total == (binds_view(out@) + r2, h2)
            }),
    {
        let ghost i = it.index() as int;
        let (k, val) = e;
        let ghost cur = bv.skip(i);
        let ghost hh = nodes_view(heap@);
        proof {
            assert(bs[i] == e);
            assert(cur[0] == bv[i]);
            assert(cur.drop_first() =~= bv.skip(i + 1));
            assert(k@ == bv[i].0 && val@ == bv[i].1);
        }
        let ghost prev = out@;
        if occurs(tmpl, k.as_str()) >= 2 {
            let idx = heap.len();
            let ghost hraw = heap@;
            heap.push(val);
            out.push((k, Node::Share(idx)));
            proof {
                lemma_nodes_view(hraw);
                assert(heap@.drop_last() =~= hraw);
                assert(nodes_view(heap@) =~= hh.push(bv[i].1));
                assert(out@ == prev.push((k, Node::Share(idx))));
                assert(binds_view(out@) =~= binds_view(prev) + seq![(bv[i].0, NodeV::Share(hh.len()))]);
                let (r2, h2) = share_spec(bv.skip(i + 1), tmpl@, nodes_view(heap@));
                assert(binds_view(prev) + (seq![(bv[i].0, NodeV::Share(hh.len()))] + r2)
                    =~= binds_view(out@) + r2);
            }
        } else {
            out.push((k, val));
            proof {
                assert(binds_view(out@) =~= binds_view(prev) + seq![bv[i]]);
                let (r2, h2) = share_spec(bv.skip(i + 1), tmpl@, nodes_view(heap@));
                assert(binds_view(prev) + (seq![bv[i]] + r2) =~= binds_view(out@) + r2);
            }
        }
    }
    proof {
        assert(bv.skip(bv.len() as int) =~= Seq::<(Seq<char>, NodeV)>::empty());
        assert(binds_view(out@) + Seq::<(Seq<char>, NodeV)>::empty() =~= binds_view(out@));
    }
    out
}

// ---------------------------------------------------------------------------
// β-reduction.
// ---------------------------------------------------------------------------

/// The first `k` parameters bound to the first `k` arguments; a repeated
/// parameter keeps its last argument.
pub open spec fn zip_binds(ps: Seq<Seq<char>>, args: Seq<NodeV>, k: nat) -> Seq<(Seq<char>, NodeV)>
    decreases k,
{
    if k == 0 {
        Seq::empty()
    } else {
        rebind(zip_binds(ps, args, (k - 1) as nat), ps[k - 1], args[k - 1])
    }
}

/// A lambda applied to arguments: too few make a smaller lambda, too many
/// apply the result to the rest.
pub open spec fn beta_spec(h: Seq<NodeV>, ps: Seq<Seq<char>>, body: NodeV, args: Seq<NodeV>) -> (NodeV, Seq<NodeV>) {
    let n = ps.len();
    let m = args.len();
    if m < n {
        let (b, h2) = share_spec(zip_binds(ps, args, m), body, h);
        (NodeV::Lam(ps.subrange(m as int, n as int), Box::new(subst_node(body, b))), h2)
    } else {
        let (b, h2) = share_spec(zip_binds(ps, args, n), body, h);
        let reduced = subst_node(body, b);
        if m == n {
            (reduced, h2)
        } else {
            (NodeV::App(Box::new(reduced), args.subrange(n as int, m as int)), h2)
        }
    }
}

/// Copies of `xs[from..to]`.
fn copy_nodes(xs: &Vec<Node>, from: usize, to: usize) -> (r: Vec<Node>)
    requires
        from <= to <= xs.len(),
    ensures
        nodes_view(r@) == nodes_view(xs@).subrange(from as int, to as int),
{
    let mut out: Vec<Node> = Vec::new();
    let mut i: usize = from;
    while i < to
        invariant
            from <= i <= to,
            to <= xs.len(),
            out.len() == i - from,
            forall|j: int| 0 <= j < out.len() ==> (#[trigger] out@[j])@ == xs@[from + j]@,
        decreases to - i,
    {
        out.push(clone_node(&xs[i]));
        i = i + 1;
    }
    proof {
        lemma_nodes_view(out@);
        lemma_nodes_view(xs@);
        assert(nodes_view(out@) =~= nodes_view(xs@).subrange(from as int, to as int));
    }
    out
}

/// Copies of `ns[from..]`.
fn copy_names_from(ns: &Vec<String>, from: usize) -> (r: Vec<String>)
    requires
        from <= ns.len(),
    ensures
        names_view(r@) == names_view(ns@).subrange(from as int, ns.len() as int),
{
    let mut out: Vec<String> = Vec::new();
    let mut i: usize = from;
    while i < ns.len()
        invariant
            from <= i <= ns.len(),
            out.len() == i - from,
            forall|j: int| 0 <= j < out.len() ==> (#[trigger] out@[j])@ == ns@[from + j]@,
        decreases ns.len() - i,
    {
        out.push(ns[i].clone());
        i = i + 1;
    }
    proof {
        assert(names_view(out@) =~= names_view(ns@).subrange(from as int, ns.len() as int));
    }
    out
}

/// β-reduce a lambda applied to arguments.
fn beta(ps: &Vec<String>, body: &Node, args: &Vec<Node>, heap: &mut Vec<Node>) -> (r: Node)
    ensures
        (r@, nodes_view(final(heap)@)) == beta_spec(nodes_view(old(heap)@), names_view(ps@), body@, nodes_view(args@)),
        final(heap).len() >= old(heap).len(),
{
    let ghost pv = names_view(ps@);
    let ghost av = nodes_view(args@);
    proof {
        lemma_nodes_view(args@);
    }
    let n = ps.len();
    let m = args.len();
    let k = if m < n {
        m
    } else {
        n
    };
    let mut b: Vec<(String, Node)> = Vec::new();
    let mut i: usize = 0;
    proof {
        assert(binds_view(b@) =~= Seq::<(Seq<char>, NodeV)>::empty());
    }
    while i < k
        invariant
            i <= k,
            k <= n == ps.len(),
            k <= m == args.len(),
            pv == names_view(ps@),
            av == nodes_view(args@),
            av.len() == args.len(),
            forall|j: int| 0 <= j < args.len() ==> #[trigger] av[j] == args@[j]@,
            binds_view(b@) == zip_binds(pv, av, i as nat),
        decreases k - i,
    {
        let mut one: Vec<String> = Vec::new();
        one.push(ps[i].clone());
        proof {
            assert(names_view(one@) =~= seq![pv[i as int]]);
        }
        let mut b2 = without_names(&b, &one);
        let ghost prev = b2@;
        b2.push((ps[i].clone(), clone_node(&args[i])));
        proof {
            assert(binds_view(b2@) =~= binds_view(prev).push((pv[i as int], av[i as int])));
        }
        b = b2;
        i = i + 1;
    }
    let b = share_binds(b, body, heap);
    let reduced = subst(body, &b);
    if m < n {
        let rest = copy_names_from(ps, m);
        Node::Lam(rest, Box::new(reduced))
    } else if m == n {
        reduced
    } else {
        let extra = copy_nodes(args, n, m);
        Node::App(Box::new(reduced), extra)
    }
}

// ---------------------------------------------------------------------------
// Matching a pattern against a node.
// ---------------------------------------------------------------------------

/// Structural equality of a share-free pattern and a node; a shared cell
/// equals no pattern.
pub open spec fn pat_equal(p: TermV, n: NodeV) -> bool
    decreases p,
{
    match p {
        TermV::Var(x) => n == NodeV::Var(x),
        TermV::Int(x) => n == NodeV::Int(x),
        TermV::Big(x) => n == NodeV::Big(x),
        TermV::Float(x, _) => match n {
            NodeV::Float(y, _) => float_bits_eq(x, y),
            _ => false,
        },
        TermV::Str(x) => n == NodeV::Str(x),
        TermV::Sym(f, xs) => match n {
            NodeV::Sym(g, ys) => f == g && pats_equal(xs, ys),
            _ => false,
        },
        TermV::Lam(ps, body) => match n {
            NodeV::Lam(qs, body2) => ps == qs && pat_equal(*body, *body2),
            _ => false,
        },
        TermV::App(f, xs) => match n {
            NodeV::App(g, ys) => pat_equal(*f, *g) && pats_equal(xs, ys),
            _ => false,
        },
        TermV::Kosha(es) => match n {
            NodeV::Kosha(fs) => pat_entries_equal(es, fs),
            _ => false,
        },
    }
}

pub open spec fn pats_equal(xs: Seq<TermV>, ys: Seq<NodeV>) -> bool
    decreases xs,
{
    if xs.len() != ys.len() {
        false
    } else if xs.len() == 0 {
        true
    } else {
        pats_equal(xs.drop_last(), ys.drop_last()) && pat_equal(xs.last(), ys.last())
    }
}

pub open spec fn pat_entries_equal(es: Seq<(TermV, TermV)>, fs: Seq<(NodeV, NodeV)>) -> bool
    decreases es,
{
    if es.len() != fs.len() {
        false
    } else if es.len() == 0 {
        true
    } else {
        &&& pat_entries_equal(es.drop_last(), fs.drop_last())
        &&& pat_equal(es.last().0, fs.last().0)
        &&& pat_equal(es.last().1, fs.last().1)
    }
}

proof fn lemma_pats_equal(xs: Seq<TermV>, ys: Seq<NodeV>)
    ensures
        pats_equal(xs, ys) <==> (xs.len() == ys.len() && forall|i: int|
            0 <= i < xs.len() ==> #[trigger] pat_equal(xs[i], ys[i])),
    decreases xs.len(),
{
    if xs.len() == ys.len() && xs.len() > 0 {
        let n = xs.len() - 1;
        lemma_pats_equal(xs.drop_last(), ys.drop_last());
        assert(xs.last() == xs[n] && ys.last() == ys[n]);
        if forall|i: int| 0 <= i < xs.len() ==> #[trigger] pat_equal(xs[i], ys[i]) {
            assert forall|i: int| 0 <= i < n implies #[trigger] pat_equal(
                xs.drop_last()[i],
                ys.drop_last()[i],
            ) by {
                assert(pat_equal(xs[i], ys[i]));
            }
            assert(pat_equal(xs[n], ys[n]));
        }
        if pats_equal(xs, ys) {
            assert forall|i: int| 0 <= i < xs.len() implies #[trigger] pat_equal(xs[i], ys[i]) by {
                if i < n {
                    assert(pat_equal(xs.drop_last()[i], ys.drop_last()[i]));
                }
            }
        }
    }
}

pub open spec fn pat_entry_equal(e: (TermV, TermV), f: (NodeV, NodeV)) -> bool {
    pat_equal(e.0, f.0) && pat_equal(e.1, f.1)
}

proof fn lemma_pat_entries_equal(es: Seq<(TermV, TermV)>, fs: Seq<(NodeV, NodeV)>)
    ensures
        pat_entries_equal(es, fs) <==> (es.len() == fs.len() && forall|i: int|
            0 <= i < es.len() ==> #[trigger] pat_entry_equal(es[i], fs[i])),
    decreases es.len(),
{
    if es.len() == fs.len() && es.len() > 0 {
        let n = es.len() - 1;
        lemma_pat_entries_equal(es.drop_last(), fs.drop_last());
        assert(es.last() == es[n] && fs.last() == fs[n]);
        if forall|i: int| 0 <= i < es.len() ==> #[trigger] pat_entry_equal(es[i], fs[i]) {
            assert forall|i: int| 0 <= i < n implies #[trigger] pat_entry_equal(
                es.drop_last()[i],
                fs.drop_last()[i],
            ) by {
                assert(pat_entry_equal(es[i], fs[i]));
            }
            assert(pat_entry_equal(es[n], fs[n]));
        }
        if pat_entries_equal(es, fs) {
            assert forall|i: int| 0 <= i < es.len() implies #[trigger] pat_entry_equal(es[i], fs[i]) by {
                if i < n {
                    assert(pat_entry_equal(es.drop_last()[i], fs.drop_last()[i]));
                }
            }
        }
    }
}

/// Is a share-free pattern structurally equal to a node?
fn pat_eq(p: &Term, n: &Node) -> (r: bool)
    ensures
        r == pat_equal(p@, n@),
    decreases p,
{
    match p {
        Term::Var(x) => match n {
            Node::Var(y) => crate::text::str_eq(x.as_str(), y.as_str()),
            _ => false,
        },
        Term::Int(x) => match n {
            Node::Int(y) => *x == *y,
            _ => false,
        },
        Term::Big(x) => match n {
            Node::Big(y) => x.eq(y),
            _ => false,
        },
        Term::Float(x) => match n {
            Node::Float(y) => x.eq(y),
            _ => false,
        },
        Term::Str(x) => match n {
            Node::Str(y) => crate::text::str_eq(x.as_str(), y.as_str()),
            _ => false,
        },
        Term::Sym(f, xs) => match n {
            Node::Sym(g, ys) => crate::text::str_eq(f.as_str(), g.as_str()) && pats_eq(xs, ys),
            _ => false,
        },
        Term::Lam(ps, body) => match n {
            Node::Lam(qs, body2) => names_eq(ps, qs) && pat_eq(body, body2),
            _ => false,
        },
        Term::App(f, xs) => match n {
            Node::App(g, ys) => pat_eq(f, g) && pats_eq(xs, ys),
            _ => false,
        },
        Term::Kosha(es) => match n {
            Node::Kosha(fs) => pat_entries_eq(es, fs),
            _ => false,
        },
    }
}

/// Are two name lists the same, name by name?
fn names_eq(a: &Vec<String>, b: &Vec<String>) -> (r: bool)
    ensures
        r == (names_view(a@) == names_view(b@)),
{
    if a.len() != b.len() {
        proof {
            assert(names_view(a@).len() != names_view(b@).len());
        }
        return false;
    }
    let mut i: usize = 0;
    while i < a.len()
        invariant
            a.len() == b.len(),
            i <= a.len(),
            forall|j: int| 0 <= j < i ==> a@[j]@ == b@[j]@,
        decreases a.len() - i,
    {
        if !crate::text::str_eq(a[i].as_str(), b[i].as_str()) {
            proof {
                assert(names_view(a@)[i as int] != names_view(b@)[i as int]);
            }
            return false;
        }
        i = i + 1;
    }
    proof {
        assert(names_view(a@) =~= names_view(b@));
    }
    true
}

fn pats_eq(xs: &Vec<Term>, ys: &Vec<Node>) -> (r: bool)
    ensures
        r == pats_equal(terms_view(xs@), nodes_view(ys@)),
    decreases xs,
{
    proof {
        lemma_terms_view(xs@);
        lemma_nodes_view(ys@);
        lemma_pats_equal(terms_view(xs@), nodes_view(ys@));
    }
    if xs.len() != ys.len() {
        return false;
    }
    let mut i: usize = 0;
    while i < xs.len()
        invariant
            xs.len() == ys.len(),
            i <= xs.len(),
            terms_view(xs@).len() == xs.len(),
            nodes_view(ys@).len() == ys.len(),
            forall|j: int| 0 <= j < xs.len() ==> #[trigger] terms_view(xs@)[j] == xs@[j]@,
            forall|j: int| 0 <= j < ys.len() ==> #[trigger] nodes_view(ys@)[j] == ys@[j]@,
            forall|j: int| 0 <= j < i ==> pat_equal(#[trigger] terms_view(xs@)[j], nodes_view(ys@)[j]),
        decreases xs.len() - i,
    {
        if !pat_eq(&xs[i], &ys[i]) {
            proof {
                assert(!pat_equal(terms_view(xs@)[i as int], nodes_view(ys@)[i as int]));
                lemma_pats_equal(terms_view(xs@), nodes_view(ys@));
            }
            return false;
        }
        i = i + 1;
    }
    true
}

fn pat_entries_eq(es: &Vec<(Term, Term)>, fs: &Vec<(Node, Node)>) -> (r: bool)
    ensures
        r == pat_entries_equal(entries_view(es@), nentries_view(fs@)),
    decreases es,
{
    proof {
        lemma_entries_view(es@);
        lemma_nentries_view(fs@);
        lemma_pat_entries_equal(entries_view(es@), nentries_view(fs@));
    }
    if es.len() != fs.len() {
        return false;
    }
    let mut i: usize = 0;
    while i < es.len()
        invariant
            es.len() == fs.len(),
            i <= es.len(),
            entries_view(es@).len() == es.len(),
            nentries_view(fs@).len() == fs.len(),
            forall|j: int|
                0 <= j < es.len() ==> #[trigger] entries_view(es@)[j] == (es@[j].0@, es@[j].1@),
            forall|j: int|
                0 <= j < fs.len() ==> #[trigger] nentries_view(fs@)[j] == (fs@[j].0@, fs@[j].1@),
            forall|j: int|
                0 <= j < i ==> pat_entry_equal(#[trigger] entries_view(es@)[j], nentries_view(fs@)[j]),
        decreases es.len() - i,
    {
        let same = pat_eq(&es[i].0, &fs[i].0) && pat_eq(&es[i].1, &fs[i].1);
        if !same {
            proof {
                assert(!pat_entry_equal(entries_view(es@)[i as int], nentries_view(fs@)[i as int]));
                lemma_pat_entries_equal(entries_view(es@), nentries_view(fs@));
            }
            return false;
        }
        i = i + 1;
    }
    true
}

/// One-way, non-linear matching of a pattern against a node, looking
/// through shared cells; a variable seen again must denote an equal term.
pub open spec fn match_node(h: Seq<NodeV>, d: nat, p: TermV, n: NodeV, b: Seq<(Seq<char>, NodeV)>) -> Option<Seq<(Seq<char>, NodeV)>>
    decreases d, p,
{
    match n {
        NodeV::Share(i) => if d == 0 || i >= h.len() {
            None
        } else {
            match_node(h, (d - 1) as nat, p, h[i as int], b)
        },
        _ => match p {
            TermV::Var(v) => match lookup(b, v) {
                Some(prev) => if crate::ast::term_equal(strip_spec(h, prev, d), strip_spec(h, n, d)) {
                    Some(b)
                } else {
                    None
                },
                None => Some(b.push((v, n))),
            },
            TermV::Sym(f, ps) => match n {
                NodeV::Sym(g, ts) => if f == g && ps.len() == ts.len() {
                    match_nodes(h, d, ps, ts, b)
                } else {
                    None
                },
                _ => None,
            },
            _ => if pat_equal(p, n) {
                Some(b)
            } else {
                None
            },
        },
    }
}

/// Match patterns against nodes of the same number, left to right.
pub open spec fn match_nodes(h: Seq<NodeV>, d: nat, ps: Seq<TermV>, ts: Seq<NodeV>, b: Seq<(Seq<char>, NodeV)>) -> Option<Seq<(Seq<char>, NodeV)>>
    decreases d, ps,
{
    if ps.len() == 0 {
        Some(b)
    } else {
        match match_node(h, d, ps[0], ts[0], b) {
            Some(b1) => match_nodes(h, d, ps.drop_first(), ts.drop_first(), b1),
            None => None,
        }
    }
}

/// The view of optional bindings.
pub open spec fn opt_binds_view(r: Option<Vec<(String, Node)>>) -> Option<Seq<(Seq<char>, NodeV)>> {
    match r {
        Some(b) => Some(binds_view(b@)),
        None => None,
    }
}

/// Match a pattern against a node, extending the bindings.
fn match_pat(heap: &Vec<Node>, depth: u64, p: &Term, n: &Node, b: Vec<(String, Node)>) -> (r: Option<Vec<(String, Node)>>)
    ensures
        opt_binds_view(r) == match_node(nodes_view(heap@), depth as nat, p@, n@, binds_view(b@)),
    decreases depth, p,
{
    proof {
        lemma_nodes_view(heap@);
    }
    if let Node::Share(i) = n {
        if depth == 0 || *i >= heap.len() {
            return None;
        }
        return match_pat(heap, depth - 1, p, &heap[*i], b);
    }
    match p {
        Term::Var(v) => match lookup_bind(&b, v.as_str()) {
            Some(prev) => {
                let x = strip(heap, &prev, depth);
                let y = strip(heap, n, depth);
                if crate::ast::term_eq(&x, &y) {
                    Some(b)
                } else {
                    None
                }
            },
            None => {
                let mut b2 = b;
                let ghost prev = b2@;
                b2.push((v.clone(), clone_node(n)));
                proof {
                    assert(binds_view(b2@) =~= binds_view(prev).push((v@, n@)));
                }
                Some(b2)
            },
        },
        Term::Sym(f, ps) => match n {
            Node::Sym(g, ts) => {
                proof {
                    lemma_terms_view(ps@);
                    lemma_nodes_view(ts@);
                }
                if crate::text::str_eq(f.as_str(), g.as_str()) && ps.len() == ts.len() {
                    match_pats(heap, depth, ps, ts, b)
                } else {
                    None
                }
            },
            _ => None,
        },
        _ => if pat_eq(p, n) {
            Some(b)
        } else {
            None
        },
    }
}

/// Match patterns against as many nodes, left to right.
fn match_pats(heap: &Vec<Node>, depth: u64, ps: &Vec<Term>, ts: &Vec<Node>, b: Vec<(String, Node)>) -> (r: Option<Vec<(String, Node)>>)
    requires
        ps.len() == ts.len(),
    ensures
        opt_binds_view(r) == match_nodes(nodes_view(heap@), depth as nat, terms_view(ps@), nodes_view(ts@), binds_view(b@)),
    decreases depth, ps,
{
    let ghost h = nodes_view(heap@);
    let ghost pv = terms_view(ps@);
    let ghost tv = nodes_view(ts@);
    let ghost goal = match_nodes(h, depth as nat, pv, tv, binds_view(b@));
    proof {
        lemma_terms_view(ps@);
        lemma_nodes_view(ts@);
        assert(pv.skip(0) =~= pv);
        assert(tv.skip(0) =~= tv);
    }
    let mut cur = b;
    let mut i: usize = 0;
    while i < ps.len()
        invariant
            i <= ps.len() == ts.len(),
            h == nodes_view(heap@),
            pv == terms_view(ps@),
            tv == nodes_view(ts@),
            pv.len() == ps.len(),
            tv.len() == ts.len(),
            forall|j: int| 0 <= j < ps.len() ==> #[trigger] pv[j] == ps@[j]@,
            forall|j: int| 0 <= j < ts.len() ==> #[trigger] tv[j] == ts@[j]@,
            goal == match_nodes(h, depth as nat, pv.skip(i as int), tv.skip(i as int), binds_view(cur@)),
            goal == match_nodes(h, depth as nat, pv, tv, binds_view(b@)),
        decreases ps.len() - i,
    {
        proof {
            assert(pv.skip(i as int)[0] == pv[i as int]);
            assert(tv.skip(i as int)[0] == tv[i as int]);
            assert(pv.skip(i as int).drop_first() =~= pv.skip(i + 1));
            assert(tv.skip(i as int).drop_first() =~= tv.skip(i + 1));
        }
        match match_pat(heap, depth, &ps[i], &ts[i], cur) {
            Some(next) => {
                cur = next;
            },
            None => {
                return None;
            },
        }
        i = i + 1;
    }
    proof {
        assert(pv.skip(ps.len() as int).len() == 0);
    }
    Some(cur)
}

// ---------------------------------------------------------------------------
// Lists.
// ---------------------------------------------------------------------------

/// The elements of a proper cons-list, looking through shared cells along
/// its spine.
pub open spec fn list_items_node(h: Seq<NodeV>, n: NodeV, d: nat) -> Option<Seq<NodeV>>
    decreases d, n,
{
    match n {
        NodeV::Share(i) => if d == 0 || i >= h.len() {
            None
        } else {
            list_items_node(h, h[i as int], (d - 1) as nat)
        },
        NodeV::Sym(f, a) => if f == "रिक्त"@ && a.len() == 0 {
            Some(Seq::empty())
        } else if f == "युग्म"@ && a.len() == 2 {
            match list_items_node(h, a[1], d) {
                Some(rest) => Some(seq![a[0]] + rest),
                None => None,
            }
        } else {
            None
        },
        _ => None,
    }
}

/// The elements of a proper cons-list, copied.
fn list_nodes(heap: &Vec<Node>, n: &Node, depth: u64) -> (r: Option<Vec<Node>>)
    ensures
        match r {
            Some(items) => list_items_node(nodes_view(heap@), n@, depth as nat) == Some(nodes_view(items@)),
            None => list_items_node(nodes_view(heap@), n@, depth as nat) == None::<Seq<NodeV>>,
        },
    decreases depth, n,
{
    proof {
        lemma_nodes_view(heap@);
    }
    match n {
        Node::Share(i) => {
            if depth == 0 || *i >= heap.len() {
                None
            } else {
                list_nodes(heap, &heap[*i], depth - 1)
            }
        },
        Node::Sym(f, a) => {
            proof {
                lemma_nodes_view(a@);
            }
            if crate::text::str_eq(f.as_str(), "रिक्त") && a.len() == 0 {
                let v: Vec<Node> = Vec::new();
                proof {
                    assert(nodes_view(v@) =~= Seq::<NodeV>::empty());
                }
                Some(v)
            } else if crate::text::str_eq(f.as_str(), "युग्म") && a.len() == 2 {
                match list_nodes(heap, &a[1], depth) {
                    Some(mut rest) => {
                        let ghost r0 = rest@;
                        let mut out: Vec<Node> = Vec::new();
                        out.push(clone_node(&a[0]));
                        out.append(&mut rest);
                        proof {
                            lemma_nodes_view(out@);
                            lemma_nodes_view(r0);
                            assert(nodes_view(out@) =~= seq![a@[0]@] + nodes_view(r0));
                        }
                        Some(out)
                    },
                    None => None,
                }
            } else {
                None
            }
        },
        _ => None,
    }
}

// ---------------------------------------------------------------------------
// Floating point, builtins and sequence systems.
// ---------------------------------------------------------------------------

/// A floating-point operation supplied by the caller is a function: it is
/// defined everywhere and equal operands give equal results.
pub open spec fn float_deterministic<F: Fn(String, Vec<Term>) -> Option<Term>>(f: F) -> bool {
    &&& forall|op: String, args: Vec<Term>| #[trigger] f.requires((op, args))
    &&& forall|o1: String, a1: Vec<Term>, r1: Option<Term>, o2: String, a2: Vec<Term>, r2: Option<Term>|
        #![trigger f.ensures((o1, a1), r1), f.ensures((o2, a2), r2)]
        f.ensures((o1, a1), r1) && f.ensures((o2, a2), r2) && o1@ == o2@ && terms_view(a1@) == terms_view(
            a2@,
        ) ==> opt_term_view(r1) == opt_term_view(r2)
}

/// What the caller's floating-point operation gives on an operation and its
/// operands.
pub open spec fn float_oracle<F: Fn(String, Vec<Term>) -> Option<Term>>(f: F) -> spec_fn(Seq<char>, Seq<TermV>) -> Option<TermV> {
    |op: Seq<char>, args: Seq<TermV>|
        {
            let (o, a, r) = choose|o: String, a: Vec<Term>, r: Option<Term>|
                o@ == op && terms_view(a@) == args && #[trigger] f.ensures((o, a), r);
            opt_term_view(r)
        }
}

/// Within the machine's limit for builtin arithmetic.
pub open spec fn fits_v(t: TermV) -> bool {
    match t {
        TermV::Big(v) => value_within_limb_limit(v),
        _ => true,
    }
}

/// A builtin applied to irreducible arguments: they are compared and
/// computed by the share-free terms they denote; floating-point operations
/// go to `fl`.
pub open spec fn apply_node(
    h: Seq<NodeV>,
    d: nat,
    fl: spec_fn(Seq<char>, Seq<TermV>) -> Option<TermV>,
    name: Seq<char>,
    args: Seq<NodeV>,
) -> Option<NodeV> {
    let targs = strip_all(h, args, d);
    if exists|i: int| 0 <= i < targs.len() && !fits_v(#[trigger] targs[i]) {
        None
    } else {
        match apply_spec(name, targs) {
            AppliedV::Value(t) => Some(embed(t)),
            AppliedV::Stuck => None,
            AppliedV::Float(op, xs) => match fl(op, xs) {
                Some(t) => Some(embed(t)),
                None => None,
            },
        }
    }
}

/// The view of an optional node.
pub open spec fn opt_node_view(r: Option<Node>) -> Option<NodeV> {
    match r {
        Some(n) => Some(n@),
        None => None,
    }
}

/// Apply a builtin.
fn apply_builtin<F: Fn(String, Vec<Term>) -> Option<Term>>(
    heap: &Vec<Node>,
    depth: u64,
    float: &F,
    name: &String,
    args: &Vec<Node>,
) -> (r: Option<Node>)
    requires
        float_deterministic(*float),
    ensures
        opt_node_view(r) == apply_node(nodes_view(heap@), depth as nat, float_oracle(*float), name@, nodes_view(args@)),
{
    let ghost h = nodes_view(heap@);
    let targs = strip_nodes(heap, args, depth);
    let ghost tv = terms_view(targs@);
    proof {
        lemma_terms_view(targs@);
    }
    let mut i: usize = 0;
    while i < targs.len()
        invariant
            i <= targs.len(),
            tv == terms_view(targs@),
            tv.len() == targs.len(),
            forall|j: int| 0 <= j < targs.len() ==> #[trigger] tv[j] == targs@[j]@,
            forall|j: int| 0 <= j < i ==> #[trigger] limbs_fit(targs@[j]) && fits_v(tv[j]),
            h == nodes_view(heap@),
            tv == strip_all(h, nodes_view(args@), depth as nat),
        decreases targs.len() - i,
    {
        let ok = match &targs[i] {
            Term::Big(b) => b.within_limb_limit(),
            _ => true,
        };
        if !ok {
            proof {
                assert(!fits_v(tv[i as int]));
            }
            return None;
        }
        proof {
            assert(limbs_fit(targs@[i as int]));
            assert(fits_v(tv[i as int]));
        }
        i = i + 1;
    }
    proof {
        assert forall|j: int| 0 <= j < tv.len() implies fits_v(#[trigger] tv[j]) by {
            assert(limbs_fit(targs@[j]) && fits_v(tv[j]));
        }
    }
    match apply(name.as_str(), targs.as_slice()) {
        Applied::Value(t) => Some(node_of(&t)),
        Applied::Stuck => None,
        Applied::Float(op, xs) => {
            let ghost (o0, a0) = (op, xs);
            let r = float(op, xs);
            proof {
                assert(float.ensures((o0, a0), r));
                let (o, a, rr) = choose|o: String, a: Vec<Term>, rr: Option<Term>|
                    o@ == o0@ && terms_view(a@) == terms_view(a0@) && #[trigger] float.ensures((o, a), rr);
                assert(float.ensures((o, a), rr));
            }
            match r {
                Some(t) => Some(node_of(&t)),
                None => None,
            }
        },
    }
}

/// The first sequence system named `name`.
pub open spec fn find_system(ss: Seq<SeqSystemV>, name: Seq<char>) -> Option<SeqSystemV>
    decreases ss.len(),
{
    if ss.len() == 0 {
        None
    } else if ss[0].name == name {
        Some(ss[0])
    } else {
        find_system(ss.drop_first(), name)
    }
}

// ---------------------------------------------------------------------------
// Reduction.
// ---------------------------------------------------------------------------

/// What the engine reduces with: the rules in declaration order, the
/// sequence systems, the classes, and the fuel.
pub struct EngineV {
    pub rules: Seq<RuleV>,
    pub systems: Seq<SeqSystemV>,
    pub classes: Seq<ClassV>,
    pub fuel: nat,
}

/// The outcome of normalising a term.
pub struct OutcomeV {
    pub term: TermV,
    pub steps: nat,
    pub out_of_fuel: bool,
}

/// `सत्य`, the truth a guard must reduce to.
pub open spec fn truth() -> TermV {
    TermV::Sym("सत्य"@, Seq::empty())
}

/// One leftmost-outermost rewrite step on `t`, with the heap it leaves:
/// the new term, or `None` when `t` is irreducible.
pub open spec fn step_spec(
    e: EngineV,
    fl: spec_fn(Seq<char>, Seq<TermV>) -> Option<TermV>,
    h: Seq<NodeV>,
    d: nat,
    t: NodeV,
) -> (Option<NodeV>, Seq<NodeV>)
    decreases d, 2int, 0int, t,
{
    match t {
        NodeV::Sym(name, args) => {
            let (r, h1) = rules_spec(e, fl, h, d, t, e.rules.len() as int);
            if r is Some {
                (r, h1)
            } else if args.len() == 1 && find_system(e.systems, name) is Some {
                let (r2, h2) = step_args_spec(e, fl, h1, d, args);
                match r2 {
                    Some((_, a2)) => (Some(NodeV::Sym(name, seq![a2])), h2),
                    None => match list_items_node(h2, args[0], d) {
                        Some(items) => (
                            Some(
                                embed(
                                    make_list_v(
                                        rewrite_spec(
                                            e.classes,
                                            find_system(e.systems, name)->0.rules,
                                            strip_all(h2, items, d),
                                            e.fuel,
                                        ),
                                    ),
                                ),
                            ),
                            h2,
                        ),
                        None => (None, h2),
                    },
                }
            } else {
                let (r2, h2) = step_args_spec(e, fl, h1, d, args);
                match r2 {
                    Some((i, a2)) => (Some(NodeV::Sym(name, args.update(i, a2))), h2),
                    None => if is_builtin_spec(name) {
                        (apply_node(h2, d, fl, name, args), h2)
                    } else {
                        (None, h2)
                    },
                }
            }
        },
        NodeV::App(f, args) => {
            let fp = peel_spec(h, *f, d);
            match fp {
                NodeV::Lam(ps, body) => {
                    let (r, h1) = beta_spec(h, ps, *body, args);
                    (Some(r), h1)
                },
                _ => {
                    let (r, h1) = step_spec(e, fl, h, d, *f);
                    match r {
                        Some(f2) => (Some(NodeV::App(Box::new(f2), args)), h1),
                        None => match fp {
                            NodeV::Sym(name, prev) => (Some(NodeV::Sym(name, prev + args)), h1),
                            _ => {
                                let (r2, h2) = step_args_spec(e, fl, h1, d, args);
                                match r2 {
                                    Some((i, a2)) => (Some(NodeV::App(f, args.update(i, a2))), h2),
                                    None => (None, h2),
                                }
                            },
                        },
                    }
                },
            }
        },
        NodeV::Share(i) => if d == 0 || i >= h.len() {
            (None, h)
        } else {
            let (r, h1) = step_spec(e, fl, h, (d - 1) as nat, h[i as int]);
            match r {
                Some(next) => (Some(NodeV::Share(i)), h1.update(i as int, next)),
                None => (None, h1),
            }
        },
        _ => (None, h),
    }
}

/// Step the leftmost argument that steps: its position and new value.
pub open spec fn step_args_spec(
    e: EngineV,
    fl: spec_fn(Seq<char>, Seq<TermV>) -> Option<TermV>,
    h: Seq<NodeV>,
    d: nat,
    args: Seq<NodeV>,
) -> (Option<(int, NodeV)>, Seq<NodeV>)
    decreases d, 2int, 0int, args,
{
    if args.len() == 0 {
        (None, h)
    } else {
        let (r, h1) = step_spec(e, fl, h, d, args[0]);
        match r {
            Some(a2) => (Some((0int, a2)), h1),
            None => {
                let (r2, h2) = step_args_spec(e, fl, h1, d, args.drop_first());
                match r2 {
                    Some((i, a)) => (Some((i + 1, a)), h2),
                    None => (None, h2),
                }
            },
        }
    }
}

/// Try the first `j` rules at the root of `t`, the latest first (paratva):
/// the first whose pattern matches and whose guard, if any, reduces to
/// `सत्य` rewrites `t`.
pub open spec fn rules_spec(
    e: EngineV,
    fl: spec_fn(Seq<char>, Seq<TermV>) -> Option<TermV>,
    h: Seq<NodeV>,
    d: nat,
    t: NodeV,
    j: int,
) -> (Option<NodeV>, Seq<NodeV>)
    decreases d, 1int, j, t,
{
    if j <= 0 || j > e.rules.len() {
        (None, h)
    } else {
        let rule = e.rules[j - 1];
        match match_node(h, d, rule.lhs, t, Seq::empty()) {
            None => rules_spec(e, fl, h, d, t, j - 1),
            Some(b) => {
                let (fires, h1) = match rule.guard {
                    None => (true, h),
                    Some(g) => if d == 0 {
                        (false, h)
                    } else {
                        let (o, h1) = normalize_spec(e, fl, h, (d - 1) as nat, subst_node(embed(g), b));
                        (crate::ast::term_equal(o.term, truth()), h1)
                    },
                };
                if fires {
                    let (b2, h2) = share_spec(b, embed(rule.rhs), h1);
                    (Some(subst_node(embed(rule.rhs), b2)), h2)
                } else {
                    rules_spec(e, fl, h1, d, t, j - 1)
                }
            },
        }
    }
}

/// Reduce `cur` until it is irreducible or the fuel is spent, `steps`
/// having been taken already.
pub open spec fn norm_loop(
    e: EngineV,
    fl: spec_fn(Seq<char>, Seq<TermV>) -> Option<TermV>,
    h: Seq<NodeV>,
    d: nat,
    cur: NodeV,
    steps: nat,
) -> (OutcomeV, Seq<NodeV>)
    decreases d, 3int, e.fuel - steps, cur,
{
    if steps >= e.fuel {
        (OutcomeV { term: strip_spec(h, cur, d), steps, out_of_fuel: true }, h)
    } else {
        let (r, h1) = step_spec(e, fl, h, d, cur);
        match r {
            Some(next) => norm_loop(e, fl, h1, d, next, steps + 1),
            None => (OutcomeV { term: strip_spec(h1, cur, d), steps, out_of_fuel: false }, h1),
        }
    }
}

/// Normalise `t`: its share-free normal form, the steps taken, and whether
/// the fuel ran out first.
pub open spec fn normalize_spec(
    e: EngineV,
    fl: spec_fn(Seq<char>, Seq<TermV>) -> Option<TermV>,
    h: Seq<NodeV>,
    d: nat,
    t: NodeV,
) -> (OutcomeV, Seq<NodeV>)
    decreases d, 3int, e.fuel + 1, t,
{
    norm_loop(e, fl, h, d, t, 0)
}

/// The budget that `step_args_spec` on a suffix reports, as positions of
/// the whole list.
pub open spec fn shifted(x: (Option<(int, NodeV)>, Seq<NodeV>), k: int) -> (Option<(int, NodeV)>, Seq<NodeV>) {
    match x.0 {
        Some((i, a)) => (Some((i + k, a)), x.1),
        None => x,
    }
}

/// The view of an optional position and node.
pub open spec fn opt_pos_view(r: Option<(usize, Node)>) -> Option<(int, NodeV)> {
    match r {
        Some((i, n)) => Some((i as int, n@)),
        None => None,
    }
}

/// The reduction engine over a program's rules, sequence systems and
/// classes, with the fuel it may spend on one normalisation.
pub struct Engine<'a> {
    rules: &'a Vec<Rule>,
    seq: &'a Vec<SeqSystem>,
    classes: &'a Vec<Class>,
    pub fuel: u64,
}

impl<'a> View for Engine<'a> {
    type V = EngineV;

    closed spec fn view(&self) -> EngineV {
        EngineV {
            rules: rules_view(self.rules@),
            systems: systems_view(self.seq@),
            classes: classes_view(self.classes@),
            fuel: self.fuel as nat,
        }
    }
}

/// The outcome of normalising a term.
pub struct Outcome {
    pub term: Term,
    pub steps: u64,
    pub out_of_fuel: bool,
}

impl View for Outcome {
    type V = OutcomeV;

    open spec fn view(&self) -> OutcomeV {
        OutcomeV { term: self.term@, steps: self.steps as nat, out_of_fuel: self.out_of_fuel }
    }
}

/// The default fuel: rewrite steps allowed for one normalisation.
pub const DEFAULT_FUEL: u64 = 5_000_000;

/// The depth budget of a normalisation started from outside.
pub open spec fn full_depth() -> nat {
    u64::MAX as nat
}

/// Nodes with the one at `i` replaced.
proof fn lemma_nodes_view_update(ns: Seq<Node>, i: int, x: Node)
    requires
        0 <= i < ns.len(),
    ensures
        nodes_view(ns.update(i, x)) == nodes_view(ns).update(i, x@),
{
    lemma_nodes_view(ns);
    lemma_nodes_view(ns.update(i, x));
    assert(nodes_view(ns.update(i, x)) =~= nodes_view(ns).update(i, x@));
}

impl<'a> Engine<'a> {
    /// An engine over `prog`'s rules, sequence systems and classes.
    pub fn new(prog: &'a Program, fuel: u64) -> (e: Engine<'a>)
        ensures
            e@ == (EngineV { rules: prog@.rules, systems: prog@.seq, classes: prog@.classes, fuel: fuel as nat }),
    {
        Engine { rules: &prog.rules, seq: &prog.seq, classes: &prog.classes, fuel }
    }

    /// Capture-avoiding substitution of bindings into a term: lambda
    /// parameters shadow outer bindings of the same names.
    pub fn subst(t: &Term, binds: &Bindings) -> (r: Term)
        ensures
            r@ == subst_spec(t@, binds@),
    {
        crate::rewrite::subst(t, binds)
    }

    /// The first sequence system named `name`.
    fn find_system(&self, name: &String) -> (r: Option<&'a SeqSystem>)
        ensures
            match r {
                Some(sys) => find_system(self@.systems, name@) == Some(sys@),
                None => find_system(self@.systems, name@) == None::<SeqSystemV>,
            },
    {
        let ghost ss = self@.systems;
        let mut i: usize = 0;
        proof {
            assert(ss.skip(0) =~= ss);
        }
        while i < self.seq.len()
            invariant
                i <= self.seq.len(),
                ss == systems_view(self.seq@),
                find_system(ss, name@) == find_system(ss.skip(i as int), name@),
            decreases self.seq.len() - i,
        {
            proof {
                assert(ss.skip(i as int).drop_first() =~= ss.skip(i + 1));
                assert(ss.skip(i as int)[0] == self.seq@[i as int]@);
            }
            if crate::text::str_eq(self.seq[i].name.as_str(), name.as_str()) {
                return Some(&self.seq[i]);
            }
            i = i + 1;
        }
        None
    }

    /// One leftmost-outermost rewrite step.
    fn step<F: Fn(String, Vec<Term>) -> Option<Term>>(&self, float: &F, heap: &mut Vec<Node>, depth: u64, t: &Node) -> (r: Option<Node>)
        requires
            float_deterministic(*float),
        ensures
            (opt_node_view(r), nodes_view(final(heap)@)) == step_spec(
                self@,
                float_oracle(*float),
                nodes_view(old(heap)@),
                depth as nat,
                t@,
            ),
            final(heap).len() >= old(heap).len(),
        decreases depth, 2int, 0int, t,
    {
        let ghost e = self@;
        let ghost fl = float_oracle(*float);
        let ghost h0 = nodes_view(heap@);
        match t {
            Node::Sym(name, args) => {
                proof {
                    lemma_nodes_view(args@);
                }
                if let Some(r) = self.try_user_rules(float, heap, depth, t) {
                    return Some(r);
                }
                if args.len() == 1 {
                    if let Some(sys) = self.find_system(name) {
                        if let Some((_, a2)) = self.step_args(float, heap, depth, args) {
                            let mut one: Vec<Node> = Vec::new();
                            one.push(a2);
                            proof {
                                lemma_nodes_view(one@);
                                assert(nodes_view(one@) =~= seq![one@[0]@]);
                            }
                            return Some(Node::Sym(name.clone(), one));
                        }
                        return match list_nodes(heap, &args[0], depth) {
                            Some(items) => {
                                let elems = strip_nodes(heap, &items, depth);
                                let result = crate::krama::rewrite_seq(self.classes, sys, elems, self.fuel);
                                let list = crate::builtins::make_list(result);
                                Some(node_of(&list))
                            },
                            None => None,
                        };
                    }
                }
                match self.step_args(float, heap, depth, args) {
                    Some((i, a2)) => {
                        let mut v = clone_nodes(args);
                        let ghost old_v = v@;
                        proof {
                            lemma_nodes_view(old_v);
                        }
                        v.set(i, a2);
                        proof {
                            lemma_nodes_view_update(old_v, i as int, v@[i as int]);
                            assert(old_v.update(i as int, v@[i as int]) == v@);
                        }
                        Some(Node::Sym(name.clone(), v))
                    },
                    None => {
                        if crate::builtins::is_builtin(name.as_str()) {
                            apply_builtin(heap, depth, float, name, args)
                        } else {
                            None
                        }
                    },
                }
            },
            Node::App(f, args) => {
                let fp = peel(heap, f, depth);
                if let Node::Lam(ps, body) = &fp {
                    return Some(beta(ps, body, args, heap));
                }
                if let Some(f2) = self.step(float, heap, depth, f) {
                    return Some(Node::App(Box::new(f2), clone_nodes(args)));
                }
                if let Node::Sym(name, prev) = &fp {
                    let mut call = clone_nodes(prev);
                    let mut rest = clone_nodes(args);
                    let ghost (c0, r0) = (call@, rest@);
                    call.append(&mut rest);
                    proof {
                        lemma_nodes_view(c0);
                        lemma_nodes_view(r0);
                        lemma_nodes_view(call@);
                        assert(nodes_view(call@) =~= nodes_view(c0) + nodes_view(r0));
                    }
                    return Some(Node::Sym(name.clone(), call));
                }
                match self.step_args(float, heap, depth, args) {
                    Some((i, a2)) => {
                        let mut v = clone_nodes(args);
                        let ghost old_v = v@;
                        proof {
                            lemma_nodes_view(args@);
                            lemma_nodes_view(old_v);
                        }
                        v.set(i, a2);
                        proof {
                            lemma_nodes_view_update(old_v, i as int, v@[i as int]);
                            assert(old_v.update(i as int, v@[i as int]) == v@);
                        }
                        Some(Node::App(Box::new(clone_node(f)), v))
                    },
                    None => None,
                }
            },
            Node::Share(i) => {
                proof {
                    lemma_nodes_view(heap@);
                }
                if depth == 0 || *i >= heap.len() {
                    return None;
                }
                let content = clone_node(&heap[*i]);
                match self.step(float, heap, depth - 1, &content) {
                    Some(next) => {
                        let ghost before = heap@;
                        let ghost nv = next@;
                        heap.set(*i, next);
                        proof {
                            lemma_nodes_view_update(before, *i as int, heap@[*i as int]);
                            assert(before.update(*i as int, heap@[*i as int]) == heap@);
                        }
                        Some(Node::Share(*i))
                    },
                    None => None,
                }
            },
            _ => None,
        }
    }

    /// Step the leftmost argument that steps.
    fn step_args<F: Fn(String, Vec<Term>) -> Option<Term>>(&self, float: &F, heap: &mut Vec<Node>, depth: u64, args: &Vec<Node>) -> (r: Option<(usize, Node)>)
        requires
            float_deterministic(*float),
        ensures
            (opt_pos_view(r), nodes_view(final(heap)@)) == step_args_spec(
                self@,
                float_oracle(*float),
                nodes_view(old(heap)@),
                depth as nat,
                nodes_view(args@),
            ),
            final(heap).len() >= old(heap).len(),
            match r {
                Some((i, _)) => i < args.len(),
                None => true,
            },
        decreases depth, 2int, 0int, args,
    {
        let ghost e = self@;
        let ghost fl = float_oracle(*float);
        let ghost av = nodes_view(args@);
        let ghost h0 = nodes_view(heap@);
        let ghost goal = step_args_spec(e, fl, h0, depth as nat, av);
        proof {
            lemma_nodes_view(args@);
            assert(av.skip(0) =~= av);
        }
        let mut i: usize = 0;
        while i < args.len()
            invariant
                i <= args.len(),
                e == self@,
                fl == float_oracle(*float),
                float_deterministic(*float),
                av == nodes_view(args@),
                av.len() == args.len(),
                forall|j: int| 0 <= j < args.len() ==> #[trigger] av[j] == args@[j]@,
                h0 == nodes_view(old(heap)@),
                heap.len() >= old(heap).len(),
                goal == step_args_spec(e, fl, h0, depth as nat, av),
                goal == shifted(step_args_spec(e, fl, nodes_view(heap@), depth as nat, av.skip(i as int)), i as int),
            decreases args.len() - i,
        {
            let ghost hc = nodes_view(heap@);
            proof {
                assert(av.skip(i as int)[0] == av[i as int]);
                assert(av.skip(i as int).drop_first() =~= av.skip(i + 1));
            }
            match self.step(float, heap, depth, &args[i]) {
                Some(a2) => {
                    return Some((i, a2));
                },
                None => {},
            }
            i = i + 1;
        }
        proof {
            assert(av.skip(i as int).len() == 0);
        }
        None
    }

    /// Try the rules at the root of `t`, the latest-declared first.
    fn try_user_rules<F: Fn(String, Vec<Term>) -> Option<Term>>(&self, float: &F, heap: &mut Vec<Node>, depth: u64, t: &Node) -> (r: Option<Node>)
        requires
            float_deterministic(*float),
        ensures
            (opt_node_view(r), nodes_view(final(heap)@)) == rules_spec(
                self@,
                float_oracle(*float),
                nodes_view(old(heap)@),
                depth as nat,
                t@,
                self@.rules.len() as int,
            ),
            final(heap).len() >= old(heap).len(),
        decreases depth, 1int, 0int, t,
    {
        let ghost e = self@;
        let ghost fl = float_oracle(*float);
        let ghost h0 = nodes_view(heap@);
        let ghost goal = rules_spec(e, fl, h0, depth as nat, t@, e.rules.len() as int);
        let mut j: usize = self.rules.len();
        proof {
            assert(e.rules.len() == self.rules.len());
        }
        while j > 0
            invariant
                j <= self.rules.len(),
                e == self@,
                e.rules.len() == self.rules.len(),
                e.rules == rules_view(self.rules@),
                fl == float_oracle(*float),
                float_deterministic(*float),
                h0 == nodes_view(old(heap)@),
                heap.len() >= old(heap).len(),
                goal == rules_spec(e, fl, h0, depth as nat, t@, e.rules.len() as int),
                goal == rules_spec(e, fl, nodes_view(heap@), depth as nat, t@, j as int),
            decreases j,
        {
            let rule = &self.rules[j - 1];
            proof {
                assert(e.rules[j - 1] == rule@);
            }
            let empty: Vec<(String, Node)> = Vec::new();
            proof {
                assert(binds_view(empty@) =~= Seq::<(Seq<char>, NodeV)>::empty());
            }
            if let Some(b) = match_pat(heap, depth, &rule.lhs, t, empty) {
                let fires = match &rule.guard {
                    None => true,
                    Some(g) => {
                        if depth == 0 {
                            false
                        } else {
                            let gn = node_of(g);
                            let gt = subst(&gn, &b);
                            let out = self.normalize_node(float, heap, depth - 1, &gt);
                            let yes = Term::con("सत्य");
                            crate::ast::term_eq(&out.term, &yes)
                        }
                    },
                };
                if fires {
                    let rhs = node_of(&rule.rhs);
                    let b2 = share_binds(b, &rhs, heap);
                    return Some(subst(&rhs, &b2));
                }
            }
            j = j - 1;
        }
        None
    }

    /// Reduce `t` until it is irreducible or the fuel is spent.
    fn normalize_node<F: Fn(String, Vec<Term>) -> Option<Term>>(&self, float: &F, heap: &mut Vec<Node>, depth: u64, t: &Node) -> (r: Outcome)
        requires
            float_deterministic(*float),
        ensures
            (r@, nodes_view(final(heap)@)) == normalize_spec(
                self@,
                float_oracle(*float),
                nodes_view(old(heap)@),
                depth as nat,
                t@,
            ),
            final(heap).len() >= old(heap).len(),
        decreases depth, 3int, 0int, t,
    {
        let ghost e = self@;
        let ghost fl = float_oracle(*float);
        let ghost h0 = nodes_view(heap@);
        let ghost goal = normalize_spec(e, fl, h0, depth as nat, t@);
        let mut cur = clone_node(t);
        let mut steps: u64 = 0;
        while steps < self.fuel
            invariant
                e == self@,
                e.fuel == self.fuel,
                fl == float_oracle(*float),
                float_deterministic(*float),
                h0 == nodes_view(old(heap)@),
                heap.len() >= old(heap).len(),
                steps <= self.fuel,
                goal == normalize_spec(e, fl, h0, depth as nat, t@),
                goal == norm_loop(e, fl, nodes_view(heap@), depth as nat, cur@, steps as nat),
            decreases self.fuel - steps,
        {
            match self.step(float, heap, depth, &cur) {
                Some(next) => {
                    cur = next;
                    steps = steps + 1;
                },
                None => {
                    let term = strip(heap, &cur, depth);
                    return Outcome { term, steps, out_of_fuel: false };
                },
            }
        }
        let term = strip(heap, &cur, depth);
        Outcome { term, steps, out_of_fuel: true }
    }

    /// Normalise a term: its normal form (share-free), the rewrite steps
    /// taken, and whether the fuel ran out first. Floating-point builtins
    /// are computed by `float` from the operation and its operands.
    pub fn normalize<F: Fn(String, Vec<Term>) -> Option<Term>>(&self, t: &Term, float: &F) -> (r: Outcome)
        requires
            float_deterministic(*float),
        ensures
            r@ == normalize_spec(self@, float_oracle(*float), Seq::empty(), full_depth(), embed(t@)).0,
    {
        let mut heap: Vec<Node> = Vec::new();
        proof {
            assert(nodes_view(heap@) =~= Seq::<NodeV>::empty());
        }
        let n = node_of(t);
        self.normalize_node(float, &mut heap, u64::MAX, &n)
    }
}

// ---------------------------------------------------------------------------
// Laws.
// ---------------------------------------------------------------------------

/// The fuel bounds the work: a normalisation takes at most `fuel` steps,
/// and reports running out only after taking exactly that many.
pub proof fn lemma_fuel_bounds_steps(
    e: EngineV,
    fl: spec_fn(Seq<char>, Seq<TermV>) -> Option<TermV>,
    h: Seq<NodeV>,
    d: nat,
    t: NodeV,
)
    ensures
        normalize_spec(e, fl, h, d, t).0.steps <= e.fuel,
        normalize_spec(e, fl, h, d, t).0.out_of_fuel ==> normalize_spec(e, fl, h, d, t).0.steps == e.fuel,
{
    lemma_norm_loop_fuel(e, fl, h, d, t, 0);
}

proof fn lemma_norm_loop_fuel(
    e: EngineV,
    fl: spec_fn(Seq<char>, Seq<TermV>) -> Option<TermV>,
    h: Seq<NodeV>,
    d: nat,
    cur: NodeV,
    steps: nat,
)
    requires
        steps <= e.fuel,
    ensures
        steps <= norm_loop(e, fl, h, d, cur, steps).0.steps <= e.fuel,
        norm_loop(e, fl, h, d, cur, steps).0.out_of_fuel ==> norm_loop(e, fl, h, d, cur, steps).0.steps
            == e.fuel,
    decreases e.fuel - steps,
{
    if steps < e.fuel {
        let (r, h1) = step_spec(e, fl, h, d, cur);
        if let Some(next) = r {
            lemma_norm_loop_fuel(e, fl, h1, d, next, steps + 1);
        }
    }
}

/// Values are normal forms: a literal, a variable, a lambda (nothing is
/// reduced under its binder) and a map take no step and leave the heap.
pub proof fn lemma_values_do_not_step(
    e: EngineV,
    fl: spec_fn(Seq<char>, Seq<TermV>) -> Option<TermV>,
    h: Seq<NodeV>,
    d: nat,
    t: NodeV,
)
    requires
        t is Int || t is Big || t is Float || t is Str || t is Var || t is Lam || t is Kosha,
    ensures
        step_spec(e, fl, h, d, t) == (None::<NodeV>, h),
{
}

/// Outermost first: when a rule rewrites a symbol application at its root,
/// that is the step, and the arguments are left unevaluated (which keeps
/// `यदि` lazy).
pub proof fn lemma_root_rule_first(
    e: EngineV,
    fl: spec_fn(Seq<char>, Seq<TermV>) -> Option<TermV>,
    h: Seq<NodeV>,
    d: nat,
    name: Seq<char>,
    args: Seq<NodeV>,
)
    requires
        rules_spec(e, fl, h, d, NodeV::Sym(name, args), e.rules.len() as int).0 is Some,
    ensures
        step_spec(e, fl, h, d, NodeV::Sym(name, args)) == rules_spec(
            e,
            fl,
            h,
            d,
            NodeV::Sym(name, args),
            e.rules.len() as int,
        ),
{
}

/// Paratva: among the rules whose patterns match, the latest-declared one
/// rewrites the term, provided it has no guard.
pub proof fn lemma_latest_matching_rule_wins(
    e: EngineV,
    fl: spec_fn(Seq<char>, Seq<TermV>) -> Option<TermV>,
    h: Seq<NodeV>,
    d: nat,
    t: NodeV,
    k: int,
)
    requires
        0 <= k < e.rules.len(),
        match_node(h, d, e.rules[k].lhs, t, Seq::empty()) is Some,
        e.rules[k].guard is None,
        forall|m: int| k < m < e.rules.len() ==> match_node(h, d, (#[trigger] e.rules[m]).lhs, t, Seq::empty()) is None,
    ensures
        rules_spec(e, fl, h, d, t, e.rules.len() as int) == ({
            let b = match_node(h, d, e.rules[k].lhs, t, Seq::empty())->0;
            let (b2, h2) = share_spec(b, embed(e.rules[k].rhs), h);
            (Some(subst_node(embed(e.rules[k].rhs), b2)), h2)
        }),
{
    lemma_rules_skip(e, fl, h, d, t, k, e.rules.len() as int);
}

/// Rules after `k` that do not match are passed over.
proof fn lemma_rules_skip(
    e: EngineV,
    fl: spec_fn(Seq<char>, Seq<TermV>) -> Option<TermV>,
    h: Seq<NodeV>,
    d: nat,
    t: NodeV,
    k: int,
    j: int,
)
    requires
        0 <= k < j <= e.rules.len(),
        forall|m: int| k < m < e.rules.len() ==> match_node(h, d, (#[trigger] e.rules[m]).lhs, t, Seq::empty()) is None,
    ensures
        rules_spec(e, fl, h, d, t, j) == rules_spec(e, fl, h, d, t, k + 1),
    decreases j - k,
{
    if j > k + 1 {
        assert(match_node(h, d, e.rules[j - 1].lhs, t, Seq::empty()) is None);
        lemma_rules_skip(e, fl, h, d, t, k, j - 1);
    }
}

/// Call-by-need: binding for a rule's right-hand side or a lambda's body
/// keeps the names and their order; a value the template uses more than
/// once is moved into a fresh shared cell (one per binding) at the end of
/// the heap, and the cells already there are untouched.
pub proof fn lemma_sharing(b: Seq<(Seq<char>, NodeV)>, tmpl: NodeV, h: Seq<NodeV>)
    ensures
        ({
            let (b2, h2) = share_spec(b, tmpl, h);
            &&& b2.len() == b.len()
            &&& h2.len() >= h.len()
            &&& h2.subrange(0, h.len() as int) == h
            &&& forall|i: int|
                0 <= i < b.len() ==> (#[trigger] b2[i]).0 == b[i].0 && (if uses(tmpl, b[i].0) >= 2 {
                    b2[i].1 matches NodeV::Share(c) && h.len() <= c < h2.len() && h2[c as int] == b[i].1
                } else {
                    b2[i].1 == b[i].1
                })
            &&& forall|i: int, j: int|
                0 <= i < j < b.len() && uses(tmpl, b[i].0) >= 2 && uses(tmpl, b[j].0) >= 2 ==> (
                #[trigger] b2[i]).1 != (#[trigger] b2[j]).1
        }),
    decreases b.len(),
{
    if b.len() > 0 {
        let rest = b.drop_first();
        if uses(tmpl, b[0].0) >= 2 {
            let h1 = h.push(b[0].1);
            lemma_sharing(rest, tmpl, h1);
            let (r2, h2) = share_spec(rest, tmpl, h1);
            let (b2, hh) = share_spec(b, tmpl, h);
            assert(b2 == seq![(b[0].0, NodeV::Share(h.len()))] + r2);
            assert(hh == h2);
            assert(h2.subrange(0, h1.len() as int) == h1);
            assert(h2.subrange(0, h.len() as int) =~= h) by {
                assert forall|x: int| 0 <= x < h.len() implies h2.subrange(0, h.len() as int)[x] == h[x] by {
                    assert(h2.subrange(0, h1.len() as int)[x] == h1[x]);
                }
            }
            assert(h2[h.len() as int] == b[0].1) by {
                assert(h2.subrange(0, h1.len() as int)[h.len() as int] == h1[h.len() as int]);
            }
            assert forall|i: int| 0 <= i < b.len() implies (#[trigger] b2[i]).0 == b[i].0 && (if uses(
                tmpl,
                b[i].0,
            ) >= 2 {
                b2[i].1 matches NodeV::Share(c) && h.len() <= c < hh.len() && hh[c as int] == b[i].1
            } else {
                b2[i].1 == b[i].1
            }) by {
                if i > 0 {
                    assert(b2[i] == r2[i - 1]);
                    assert(rest[i - 1] == b[i]);
                }
            }
            assert forall|i: int, j: int|
                0 <= i < j < b.len() && uses(tmpl, b[i].0) >= 2 && uses(tmpl, b[j].0) >= 2 implies (
                #[trigger] b2[i]).1 != (#[trigger] b2[j]).1 by {
                if i == 0 {
                    assert(b2[j] == r2[j - 1]);
                    assert(rest[j - 1] == b[j]);
                    assert(r2[j - 1].1 matches NodeV::Share(c) && h1.len() <= c);
                } else {
                    assert(b2[i] == r2[i - 1]);
                    assert(b2[j] == r2[j - 1]);
                }
            }
        } else {
            lemma_sharing(rest, tmpl, h);
            let (r2, h2) = share_spec(rest, tmpl, h);
            let (b2, hh) = share_spec(b, tmpl, h);
            assert(b2 == seq![b[0]] + r2);
            assert forall|i: int| 0 <= i < b.len() implies (#[trigger] b2[i]).0 == b[i].0 && (if uses(
                tmpl,
                b[i].0,
            ) >= 2 {
                b2[i].1 matches NodeV::Share(c) && h.len() <= c < hh.len() && hh[c as int] == b[i].1
            } else {
                b2[i].1 == b[i].1
            }) by {
                if i > 0 {
                    assert(b2[i] == r2[i - 1]);
                    assert(rest[i - 1] == b[i]);
                }
            }
            assert forall|i: int, j: int|
                0 <= i < j < b.len() && uses(tmpl, b[i].0) >= 2 && uses(tmpl, b[j].0) >= 2 implies (
                #[trigger] b2[i]).1 != (#[trigger] b2[j]).1 by {
                if i == 0 {
                } else {
                    assert(b2[i] == r2[i - 1]);
                    assert(b2[j] == r2[j - 1]);
                }
            }
        }
    } else {
        assert(h.subrange(0, h.len() as int) =~= h);
    }
}

/// Progress through a shared cell is seen by every reference to it: a step
/// on a cell leaves the cell in place and stores the stepped contents.
pub proof fn lemma_shared_cell_steps_in_place(
    e: EngineV,
    fl: spec_fn(Seq<char>, Seq<TermV>) -> Option<TermV>,
    h: Seq<NodeV>,
    d: nat,
    i: nat,
)
    requires
        0 < d,
        i < h.len(),
        step_spec(e, fl, h, (d - 1) as nat, h[i as int]).0 is Some,
    ensures
        ({
            let (r, h1) = step_spec(e, fl, h, d, NodeV::Share(i));
            let (inner, h0) = step_spec(e, fl, h, (d - 1) as nat, h[i as int]);
            &&& r == Some(NodeV::Share(i))
            &&& h1 == h0.update(i as int, inner->0)
        }),
{
}

/// A share-free term is what it denotes.
pub proof fn lemma_strip_embed(h: Seq<NodeV>, t: TermV, d: nat)
    ensures
        strip_spec(h, embed(t), d) == t,
    decreases t,
{
    match t {
        TermV::Sym(f, xs) => {
            lemma_strip_embed_all(h, xs, d);
        },
        TermV::Lam(ps, body) => {
            lemma_strip_embed(h, *body, d);
        },
        TermV::App(f, xs) => {
            lemma_strip_embed(h, *f, d);
            lemma_strip_embed_all(h, xs, d);
        },
        TermV::Kosha(es) => {
            lemma_strip_embed_entries(h, es, d);
        },
        _ => {},
    }
}

proof fn lemma_strip_embed_all(h: Seq<NodeV>, xs: Seq<TermV>, d: nat)
    ensures
        strip_all(h, embed_all(xs), d) == xs,
    decreases xs,
{
    lemma_embed_all(xs);
    lemma_strip_all(h, embed_all(xs), d);
    assert forall|i: int| 0 <= i < xs.len() implies strip_all(h, embed_all(xs), d)[i] == xs[i] by {
        lemma_strip_embed(h, xs[i], d);
    }
    assert(strip_all(h, embed_all(xs), d) =~= xs);
}

proof fn lemma_strip_embed_entries(h: Seq<NodeV>, es: Seq<(TermV, TermV)>, d: nat)
    ensures
        strip_entries(h, embed_entries(es), d) == es,
    decreases es,
{
    lemma_embed_entries(es);
    lemma_strip_entries(h, embed_entries(es), d);
    assert forall|i: int| 0 <= i < es.len() implies strip_entries(h, embed_entries(es), d)[i] == es[i] by {
        lemma_strip_embed(h, es[i].0, d);
        lemma_strip_embed(h, es[i].1, d);
    }
    assert(strip_entries(h, embed_entries(es), d) =~= es);
}

/// A term that takes no step is its own normal form, reached in no steps.
pub proof fn lemma_irreducible_is_its_normal_form(
    e: EngineV,
    fl: spec_fn(Seq<char>, Seq<TermV>) -> Option<TermV>,
    h: Seq<NodeV>,
    d: nat,
    t: TermV,
)
    requires
        e.fuel > 0,
        step_spec(e, fl, h, d, embed(t)) == (None::<NodeV>, h),
    ensures
        normalize_spec(e, fl, h, d, embed(t)).0 == (OutcomeV { term: t, steps: 0, out_of_fuel: false }),
{
    lemma_strip_embed(h, t, d);
}

} // verus!
