//! Primitive (builtin) reductions over native values: arithmetic,
//! comparison, equality, and string, list and map operations. Builtins are
//! strict: they are applied to arguments that are already values.
//!
//! Arithmetic and comparison with a floating-point operand are computed by
//! the caller: `apply` then answers with the operation and its operands.
use crate::ast::{
    clone_term, entries_view, lemma_entries_view, lemma_terms_view, Term, TermV, terms_view,
};
use crate::bigint::{trunc_div, trunc_rem, BigInt};
use crate::check::{
    lemma_name_lt_irreflexive, lemma_name_lt_total, lemma_name_lt_transitive, name_less, name_lt,
    strictly_sorted,
};
use crate::pretty::{show, show_spec};
use crate::text::{chars_of, push_char, push_str, str_eq};
use vstd::prelude::*;

verus! {

/// Heads of the builtin operations.
pub const BUILTIN_NAMES: [&'static str; 24] = [
    "+",
    "-",
    "*",
    "/",
    "%",
    "neg",
    "==",
    "!=",
    "<",
    "<=",
    ">",
    ">=",
    "++",
    "दीर्घ",
    "रूप",
    "अंश",
    "अक्षर",
    "रिक्तकोश",
    "समावेश",
    "प्राप्ति",
    "अस्ति",
    "निष्कास",
    "कुञ्जिकाः",
    "मूल्यानि",
];

/// Is `name` one of the builtin heads?
pub open spec fn is_builtin_spec(name: Seq<char>) -> bool {
    exists|i: int| 0 <= i < 24 && (#[trigger] BUILTIN_NAMES@[i])@ == name
}

/// Is `name` the head of a builtin operation?
pub fn is_builtin(name: &str) -> (r: bool)
    ensures
        r == is_builtin_spec(name@),
{
    let table = BUILTIN_NAMES;
    let mut i: usize = 0;
    while i < 24
        invariant
            table@ == BUILTIN_NAMES@,
            i <= 24,
            forall|k: int| 0 <= k < i ==> (#[trigger] BUILTIN_NAMES@[k])@ != name@,
        decreases 24 - i,
    {
        if str_eq(table[i], name) {
            return true;
        }
        i = i + 1;
    }
    false
}

/// What applying a builtin gives.
pub enum Applied {
    /// The result.
    Value(Term),
    /// The builtin does not apply to these arguments: the term stays stuck.
    Stuck,
    /// The result is the floating-point operation `op` on these numeric
    /// operands (integers or floats, at least one operation needing floats).
    Float(String, Vec<Term>),
}

pub enum AppliedV {
    Value(TermV),
    Stuck,
    Float(Seq<char>, Seq<TermV>),
}

impl View for Applied {
    type V = AppliedV;

    open spec fn view(&self) -> AppliedV {
        match self {
            Applied::Value(t) => AppliedV::Value(t@),
            Applied::Stuck => AppliedV::Stuck,
            Applied::Float(op, args) => AppliedV::Float(op@, terms_view(args@)),
        }
    }
}

/// A native integer, of either size.
pub open spec fn is_integer_v(t: TermV) -> bool {
    t is Int || t is Big
}

/// A native number: an integer or a float.
pub open spec fn is_numeric_v(t: TermV) -> bool {
    is_integer_v(t) || t is Float
}

/// The value of a native integer.
pub open spec fn int_of(t: TermV) -> int {
    match t {
        TermV::Int(n) => n,
        TermV::Big(n) => n,
        _ => 0,
    }
}

/// An integer result: `Int` when it fits in 64 bits, `Big` otherwise.
pub open spec fn from_big_v(v: int) -> TermV {
    if i64::MIN <= v <= i64::MAX {
        TermV::Int(v)
    } else {
        TermV::Big(v)
    }
}

/// A `दोष` (error) value carrying a message.
pub open spec fn dosha_v(msg: Seq<char>) -> TermV {
    TermV::Sym("दोष"@, seq![TermV::Str(msg)])
}

/// `सत्य` or `असत्य`.
pub open spec fn boolean_v(b: bool) -> TermV {
    TermV::Sym(
        if b {
            "सत्य"@
        } else {
            "असत्य"@
        },
        Seq::empty(),
    )
}

/// The error value for a zero divisor.
pub open spec fn division_by_zero_v() -> TermV {
    dosha_v("शून्येन भागः (division by zero)"@)
}

/// The error value for a zero modulus.
pub open spec fn modulo_by_zero_v() -> TermV {
    dosha_v("शून्येन भागः (modulo by zero)"@)
}

/// Integer arithmetic, exact: `/` truncates toward zero and `%` takes the
/// dividend's sign; a zero divisor gives a `दोष` value.
pub open spec fn int_arith(op: Seq<char>, x: int, y: int) -> AppliedV {
    if op == "+"@ {
        AppliedV::Value(from_big_v(x + y))
    } else if op == "-"@ {
        AppliedV::Value(from_big_v(x - y))
    } else if op == "*"@ {
        AppliedV::Value(from_big_v(x * y))
    } else if op == "/"@ {
        if y == 0 {
            AppliedV::Value(division_by_zero_v())
        } else {
            AppliedV::Value(from_big_v(trunc_div(x, y)))
        }
    } else if op == "%"@ {
        if y == 0 {
            AppliedV::Value(modulo_by_zero_v())
        } else {
            AppliedV::Value(from_big_v(trunc_rem(x, y)))
        }
    } else {
        AppliedV::Stuck
    }
}

/// `+ - * / %` on two numbers.
pub open spec fn arith_spec(op: Seq<char>, args: Seq<TermV>) -> AppliedV {
    if args.len() != 2 {
        AppliedV::Stuck
    } else if is_integer_v(args[0]) && is_integer_v(args[1]) {
        int_arith(op, int_of(args[0]), int_of(args[1]))
    } else if is_numeric_v(args[0]) && is_numeric_v(args[1]) {
        AppliedV::Float(op, args)
    } else {
        AppliedV::Stuck
    }
}

/// Negation of one number.
pub open spec fn negate_spec(args: Seq<TermV>) -> AppliedV {
    if args.len() != 1 {
        AppliedV::Stuck
    } else {
        match args[0] {
            TermV::Int(n) => AppliedV::Value(from_big_v(-n)),
            TermV::Big(n) => AppliedV::Value(from_big_v(-n)),
            TermV::Float(..) => AppliedV::Float("neg"@, args),
            _ => AppliedV::Stuck,
        }
    }
}

/// `==` (or, `negated`, `!=`) on the first two arguments: integers compare
/// exactly, a float on either side compares numerically, anything else
/// structurally.
pub open spec fn equality_spec(op: Seq<char>, args: Seq<TermV>, negated: bool) -> AppliedV {
    if args.len() < 2 {
        AppliedV::Stuck
    } else if is_integer_v(args[0]) && is_integer_v(args[1]) {
        AppliedV::Value(boolean_v((int_of(args[0]) == int_of(args[1])) != negated))
    } else if is_numeric_v(args[0]) && is_numeric_v(args[1]) {
        AppliedV::Float(op, seq![args[0], args[1]])
    } else {
        AppliedV::Value(boolean_v(crate::ast::term_equal(args[0], args[1]) != negated))
    }
}

/// Does the comparison `op` hold, given whether the left side is less
/// than and greater than the right?
pub open spec fn order_holds(op: Seq<char>, less: bool, greater: bool) -> Option<bool> {
    if op == "<"@ {
        Some(less)
    } else if op == "<="@ {
        Some(!greater)
    } else if op == ">"@ {
        Some(greater)
    } else if op == ">="@ {
        Some(!less)
    } else {
        None
    }
}

/// `< <= > >=`: strings in code-point order, integers by value, other
/// numbers numerically.
pub open spec fn order_spec(op: Seq<char>, args: Seq<TermV>) -> AppliedV {
    if args.len() != 2 {
        AppliedV::Stuck
    } else {
        match (args[0], args[1]) {
            (TermV::Str(x), TermV::Str(y)) => match order_holds(op, name_lt(x, y), name_lt(y, x)) {
                Some(b) => AppliedV::Value(boolean_v(b)),
                None => AppliedV::Stuck,
            },
            _ => if is_integer_v(args[0]) && is_integer_v(args[1]) {
                let (x, y) = (int_of(args[0]), int_of(args[1]));
                match order_holds(op, x < y, x > y) {
                    Some(b) => AppliedV::Value(boolean_v(b)),
                    None => AppliedV::Stuck,
                }
            } else if is_numeric_v(args[0]) && is_numeric_v(args[1]) {
                AppliedV::Float(op, args)
            } else {
                AppliedV::Stuck
            },
        }
    }
}

/// The elements of a proper cons-list.
pub open spec fn list_items_v(t: TermV) -> Option<Seq<TermV>>
    decreases t,
{
    match t {
        TermV::Sym(n, a) => if n == "रिक्त"@ && a.len() == 0 {
            Some(Seq::empty())
        } else if n == "युग्म"@ && a.len() == 2 {
            match list_items_v(a[1]) {
                Some(rest) => Some(seq![a[0]] + rest),
                None => None,
            }
        } else {
            None
        },
        _ => None,
    }
}

/// The cons-list of the items.
pub open spec fn make_list_v(items: Seq<TermV>) -> TermV
    decreases items.len(),
{
    if items.len() == 0 {
        TermV::Sym("रिक्त"@, Seq::empty())
    } else {
        TermV::Sym("युग्म"@, seq![items[0], make_list_v(items.drop_first())])
    }
}

/// `++`: strings join, lists append.
pub open spec fn concat_spec(args: Seq<TermV>) -> AppliedV {
    if args.len() != 2 {
        AppliedV::Stuck
    } else {
        match (args[0], args[1]) {
            (TermV::Str(a), TermV::Str(b)) => AppliedV::Value(TermV::Str(a + b)),
            _ => match (list_items_v(args[0]), list_items_v(args[1])) {
                (Some(x), Some(y)) => AppliedV::Value(make_list_v(x + y)),
                _ => AppliedV::Stuck,
            },
        }
    }
}

/// `दीर्घ`: the number of characters of a string or of entries of a map.
pub open spec fn length_spec(args: Seq<TermV>) -> AppliedV {
    if args.len() != 1 {
        AppliedV::Stuck
    } else {
        match args[0] {
            TermV::Str(s) => AppliedV::Value(TermV::Int(s.len() as i64 as int)),
            TermV::Kosha(es) => AppliedV::Value(TermV::Int(es.len() as i64 as int)),
            _ => AppliedV::Stuck,
        }
    }
}

/// `अंश`: `len` characters of a string from `start` (negative counts as 0).
pub open spec fn substr_spec(args: Seq<TermV>) -> AppliedV {
    if args.len() != 3 {
        AppliedV::Stuck
    } else {
        match (args[0], args[1], args[2]) {
            (TermV::Str(s), TermV::Int(start), TermV::Int(len)) => {
                let st = (if start < 0 {
                    0
                } else {
                    start
                }) as usize as int;
                let n = (if len < 0 {
                    0
                } else {
                    len
                }) as usize as int;
                let from = if st < s.len() {
                    st
                } else {
                    s.len() as int
                };
                let to = if from + n < s.len() {
                    from + n
                } else {
                    s.len() as int
                };
                AppliedV::Value(TermV::Str(s.subrange(from, to)))
            },
            _ => AppliedV::Stuck,
        }
    }
}

/// `अक्षर`: the list of a string's characters, each a one-character string.
pub open spec fn chars_spec(args: Seq<TermV>) -> AppliedV {
    if args.len() != 1 {
        AppliedV::Stuck
    } else {
        match args[0] {
            TermV::Str(s) => AppliedV::Value(
                make_list_v(Seq::new(s.len(), |i: int| TermV::Str(seq![s[i]]))),
            ),
            _ => AppliedV::Stuck,
        }
    }
}

/// The key order of maps: keys compare by their printed form.
pub open spec fn key_text(k: TermV) -> Seq<char> {
    show_spec(k, true)
}

/// The printed keys of map entries.
pub open spec fn key_texts(es: Seq<(TermV, TermV)>) -> Seq<Seq<char>> {
    es.map_values(|e: (TermV, TermV)| key_text(e.0))
}

/// The position of key text `k` among keys sorted by printed form: the
/// first position whose key does not come before `k`.
pub open spec fn search_pos(ts: Seq<Seq<char>>, k: Seq<char>) -> int
    decreases ts.len(),
{
    if ts.len() == 0 {
        0
    } else if !name_lt(ts[0], k) {
        0
    } else {
        1 + search_pos(ts.drop_first(), k)
    }
}

/// The entry holding key `k`, if any.
pub open spec fn map_lookup_v(es: Seq<(TermV, TermV)>, k: TermV) -> Option<int> {
    let i = search_pos(key_texts(es), key_text(k));
    if i < es.len() && key_texts(es)[i] == key_text(k) {
        Some(i)
    } else {
        None
    }
}

/// The key-not-found error value.
pub open spec fn key_not_found_v() -> TermV {
    dosha_v("कुञ्जिका न प्राप्ता (key not found)"@)
}

/// `समावेश(map, k, v)`: the map with `k` bound to `v`; an existing entry
/// keeps its key and takes the new value.
pub open spec fn map_insert_spec(args: Seq<TermV>) -> AppliedV {
    if args.len() != 3 {
        AppliedV::Stuck
    } else {
        match args[0] {
            TermV::Kosha(es) => match map_lookup_v(es, args[1]) {
                Some(i) => AppliedV::Value(TermV::Kosha(es.update(i, (es[i].0, args[2])))),
                None => AppliedV::Value(
                    TermV::Kosha(es.insert(search_pos(key_texts(es), key_text(args[1])), (args[1], args[2]))),
                ),
            },
            _ => AppliedV::Stuck,
        }
    }
}

/// `प्राप्ति(map, k)` or `प्राप्ति(map, k, default)`.
pub open spec fn map_get_spec(args: Seq<TermV>) -> AppliedV {
    if args.len() != 2 && args.len() != 3 {
        AppliedV::Stuck
    } else {
        match args[0] {
            TermV::Kosha(es) => match map_lookup_v(es, args[1]) {
                Some(i) => AppliedV::Value(es[i].1),
                None => if args.len() == 2 {
                    AppliedV::Value(key_not_found_v())
                } else {
                    AppliedV::Value(args[2])
                },
            },
            _ => AppliedV::Stuck,
        }
    }
}

/// `अस्ति(map, k)`: is `k` bound?
pub open spec fn map_has_spec(args: Seq<TermV>) -> AppliedV {
    if args.len() != 2 {
        AppliedV::Stuck
    } else {
        match args[0] {
            TermV::Kosha(es) => AppliedV::Value(boolean_v(map_lookup_v(es, args[1]) is Some)),
            _ => AppliedV::Stuck,
        }
    }
}

/// `निष्कास(map, k)`: the map without `k`.
pub open spec fn map_remove_spec(args: Seq<TermV>) -> AppliedV {
    if args.len() != 2 {
        AppliedV::Stuck
    } else {
        match args[0] {
            TermV::Kosha(es) => match map_lookup_v(es, args[1]) {
                Some(i) => AppliedV::Value(TermV::Kosha(es.remove(i))),
                None => AppliedV::Value(TermV::Kosha(es)),
            },
            _ => AppliedV::Stuck,
        }
    }
}

/// `कुञ्जिकाः` (keys) or `मूल्यानि` (values) of a map, as a list in entry order.
pub open spec fn map_column_spec(args: Seq<TermV>, keys: bool) -> AppliedV {
    if args.len() != 1 {
        AppliedV::Stuck
    } else {
        match args[0] {
            TermV::Kosha(es) => AppliedV::Value(
                make_list_v(
                    es.map_values(
                        |e: (TermV, TermV)|
                            if keys {
                                e.0
                            } else {
                                e.1
                            },
                    ),
                ),
            ),
            _ => AppliedV::Stuck,
        }
    }
}

/// What applying builtin `name` to evaluated arguments gives.
pub open spec fn apply_spec(name: Seq<char>, args: Seq<TermV>) -> AppliedV {
    if name == "+"@ || name == "-"@ || name == "*"@ || name == "/"@ || name == "%"@ {
        arith_spec(name, args)
    } else if name == "neg"@ {
        negate_spec(args)
    } else if name == "=="@ {
        equality_spec(name, args, false)
    } else if name == "!="@ {
        equality_spec(name, args, true)
    } else if name == "<"@ || name == "<="@ || name == ">"@ || name == ">="@ {
        order_spec(name, args)
    } else if name == "++"@ {
        concat_spec(args)
    } else if name == "दीर्घ"@ {
        length_spec(args)
    } else if name == "रूप"@ {
        if args.len() == 1 {
            AppliedV::Value(TermV::Str(show_spec(args[0], true)))
        } else {
            AppliedV::Stuck
        }
    } else if name == "अंश"@ {
        substr_spec(args)
    } else if name == "अक्षर"@ {
        chars_spec(args)
    } else if name == "रिक्तकोश"@ {
        AppliedV::Value(TermV::Kosha(Seq::empty()))
    } else if name == "समावेश"@ {
        map_insert_spec(args)
    } else if name == "प्राप्ति"@ {
        map_get_spec(args)
    } else if name == "अस्ति"@ {
        map_has_spec(args)
    } else if name == "निष्कास"@ {
        map_remove_spec(args)
    } else if name == "कुञ्जिकाः"@ {
        map_column_spec(args, true)
    } else if name == "मूल्यानि"@ {
        map_column_spec(args, false)
    } else {
        AppliedV::Stuck
    }
}

/// Machine limit on an integer argument: its limbs fit the address space
/// with room for the arithmetic.
pub open spec fn limbs_fit(t: Term) -> bool {
    match t {
        Term::Big(b) => b.limb_count() * 32 <= usize::MAX,
        _ => true,
    }
}

/// `सत्य` or `असत्य`.
pub fn boolean(b: bool) -> (t: Term)
    ensures
        t@ == boolean_v(b),
{
    Term::con(
        if b {
            "सत्य"
        } else {
            "असत्य"
        },
    )
}

/// A `दोष` value with message `msg`.
pub fn dosha(msg: &str) -> (t: Term)
    ensures
        t@ == dosha_v(msg@),
{
    let args = vec![Term::Str(msg.to_owned())];
    proof {
        lemma_terms_view(args@);
        assert(terms_view(args@) =~= seq![TermV::Str(msg@)]);
    }
    Term::app("दोष", args)
}

/// An integer result, demoted to `Int` when it fits in 64 bits.
fn from_big(b: BigInt) -> (t: Term)
    ensures
        t@ == from_big_v(b@),
{
    match b.to_i64() {
        Some(n) => Term::Int(n),
        None => Term::Big(b),
    }
}

/// The integer value of an `Int` or `Big` term.
fn as_big(t: &Term) -> (r: Option<BigInt>)
    requires
        limbs_fit(*t),
    ensures
        r is Some <==> is_integer_v(t@),
        r matches Some(b) ==> b@ == int_of(t@) && b.limb_count() * 32 <= usize::MAX,
{
    match t {
        Term::Int(n) => Some(BigInt::from_i64(*n)),
        Term::Big(b) => Some(b.clone()),
        _ => None,
    }
}

/// Exact arithmetic on two integers.
fn big_arith(op: &str, x: &BigInt, y: &BigInt) -> (r: Applied)
    requires
        x.limb_count() * 32 <= usize::MAX,
        y.limb_count() * 32 <= usize::MAX,
    ensures
        r@ == int_arith(op@, x@, y@),
{
    if str_eq(op, "+") {
        Applied::Value(from_big(x.add(y)))
    } else if str_eq(op, "-") {
        Applied::Value(from_big(x.sub(y)))
    } else if str_eq(op, "*") {
        Applied::Value(from_big(x.mul(y)))
    } else if str_eq(op, "/") {
        match x.div_rem(y) {
            Some((q, _)) => Applied::Value(from_big(q)),
            None => Applied::Value(dosha("शून्येन भागः (division by zero)")),
        }
    } else if str_eq(op, "%") {
        match x.div_rem(y) {
            Some((_, rem)) => Applied::Value(from_big(rem)),
            None => Applied::Value(dosha("शून्येन भागः (modulo by zero)")),
        }
    } else {
        Applied::Stuck
    }
}

/// The machine quotient and remainder are the truncating ones.
proof fn lemma_machine_div_rem(x: int, d: int)
    requires
        d != 0,
    ensures
        trunc_div(x, d) == (if x == 0 {
            0
        } else if x > 0 && d > 0 {
            x / d
        } else if x < 0 && d < 0 {
            ((x * -1) / (d * -1))
        } else if x < 0 {
            ((x * -1) / d) * -1
        } else {
            (x / (d * -1)) * -1
        }),
        trunc_rem(x, d) == (if x == 0 {
            0
        } else if x > 0 && d > 0 {
            x % d
        } else if x < 0 && d < 0 {
            ((x * -1) % (d * -1)) * -1
        } else if x < 0 {
            ((x * -1) % d) * -1
        } else {
            x % (d * -1)
        }),
{
    if x == 0 {
        assert(0int / crate::bigint::abs(d) == 0) by (nonlinear_arith)
            requires
                d != 0,
        ;
        assert(0int % crate::bigint::abs(d) == 0) by (nonlinear_arith)
            requires
                d != 0,
        ;
    }
}

/// A copy of the arguments.
fn copy_args(args: &[Term]) -> (r: Vec<Term>)
    ensures
        terms_view(r@) == terms_view(args@),
{
    let mut out: Vec<Term> = Vec::new();
    let mut i: usize = 0;
    while i < args.len()
        invariant
            i <= args.len(),
            out.len() == i,
            forall|j: int| 0 <= j < i ==> (#[trigger] out@[j])@ == args@[j]@,
        decreases args.len() - i,
    {
        out.push(clone_term(&args[i]));
        i = i + 1;
    }
    proof {
        lemma_terms_view(out@);
        lemma_terms_view(args@);
        assert(terms_view(out@) =~= terms_view(args@));
    }
    out
}

/// `+ - * / %`: exact on integers, with 64-bit results promoted when they
/// overflow; a float operand hands the operation back to the caller.
fn arith(op: &str, args: &[Term]) -> (r: Applied)
    requires
        forall|i: int| 0 <= i < args.len() ==> limbs_fit(#[trigger] args@[i]),
    ensures
        r@ == arith_spec(op@, terms_view(args@)),
{
    proof {
        lemma_terms_view(args@);
    }
    if args.len() != 2 {
        return Applied::Stuck;
    }
    let a = &args[0];
    let b = &args[1];
    if let (Term::Int(x), Term::Int(y)) = (a, b) {
        let (x, y) = (*x, *y);
        let checked: Option<i64> = if str_eq(op, "+") {
            x.checked_add(y)
        } else if str_eq(op, "-") {
            x.checked_sub(y)
        } else if str_eq(op, "*") {
            x.checked_mul(y)
        } else if str_eq(op, "/") {
            if y == 0 {
                return Applied::Value(dosha("शून्येन भागः (division by zero)"));
            }
            proof {
                lemma_machine_div_rem(x as int, y as int);
            }
            x.checked_div(y)
        } else if str_eq(op, "%") {
            if y == 0 {
                return Applied::Value(dosha("शून्येन भागः (modulo by zero)"));
            }
            proof {
                lemma_machine_div_rem(x as int, y as int);
            }
            x.checked_rem(y)
        } else {
            return Applied::Stuck;
        };
        return match checked {
            Some(v) => Applied::Value(Term::Int(v)),
            None => big_arith(op, &BigInt::from_i64(x), &BigInt::from_i64(y)),
        };
    }
    if let (Some(x), Some(y)) = (as_big(a), as_big(b)) {
        return big_arith(op, &x, &y);
    }
    let numeric_a = match a {
        Term::Int(_) | Term::Big(_) | Term::Float(_) => true,
        _ => false,
    };
    let numeric_b = match b {
        Term::Int(_) | Term::Big(_) | Term::Float(_) => true,
        _ => false,
    };
    if numeric_a && numeric_b {
        Applied::Float(op.to_owned(), copy_args(args))
    } else {
        Applied::Stuck
    }
}

/// Is the term a native number?
fn is_numeric(t: &Term) -> (r: bool)
    ensures
        r == is_numeric_v(t@),
{
    match t {
        Term::Int(_) | Term::Big(_) | Term::Float(_) => true,
        _ => false,
    }
}

/// `neg`: exact negation of an integer; a float hands back to the caller.
fn negate(args: &[Term]) -> (r: Applied)
    requires
        forall|i: int| 0 <= i < args.len() ==> limbs_fit(#[trigger] args@[i]),
    ensures
        r@ == negate_spec(terms_view(args@)),
{
    proof {
        lemma_terms_view(args@);
    }
    if args.len() != 1 {
        return Applied::Stuck;
    }
    match &args[0] {
        Term::Int(n) => {
            if *n == i64::MIN {
                Applied::Value(from_big(BigInt::from_i64(*n).neg()))
            } else {
                Applied::Value(Term::Int(-*n))
            }
        },
        Term::Big(b) => Applied::Value(from_big(b.neg())),
        Term::Float(_) => Applied::Float("neg".to_owned(), copy_args(args)),
        _ => Applied::Stuck,
    }
}

/// `==` (or, `negated`, `!=`) on the first two arguments.
fn equality(op: &str, args: &[Term], negated: bool) -> (r: Applied)
    requires
        forall|i: int| 0 <= i < args.len() ==> limbs_fit(#[trigger] args@[i]),
    ensures
        r@ == equality_spec(op@, terms_view(args@), negated),
{
    proof {
        lemma_terms_view(args@);
    }
    if args.len() < 2 {
        return Applied::Stuck;
    }
    let a = &args[0];
    let b = &args[1];
    if let (Some(x), Some(y)) = (as_big(a), as_big(b)) {
        return Applied::Value(boolean(x.eq(&y) != negated));
    }
    if is_numeric(a) && is_numeric(b) {
        let pair = vec![clone_term(a), clone_term(b)];
        proof {
            lemma_terms_view(pair@);
            assert(terms_view(pair@) =~= seq![terms_view(args@)[0], terms_view(args@)[1]]);
        }
        return Applied::Float(op.to_owned(), pair);
    }
    Applied::Value(boolean(crate::ast::term_eq(a, b) != negated))
}

/// Does comparison `op` hold for an ordering given as `less`/`greater`?
fn order_result(op: &str, less: bool, greater: bool) -> (r: Applied)
    ensures
        r@ == match order_holds(op@, less, greater) {
            Some(b) => AppliedV::Value(boolean_v(b)),
            None => AppliedV::Stuck,
        },
{
    if str_eq(op, "<") {
        Applied::Value(boolean(less))
    } else if str_eq(op, "<=") {
        Applied::Value(boolean(!greater))
    } else if str_eq(op, ">") {
        Applied::Value(boolean(greater))
    } else if str_eq(op, ">=") {
        Applied::Value(boolean(!less))
    } else {
        Applied::Stuck
    }
}

/// `< <= > >=`: strings by code point, integers by value; other numbers
/// hand back to the caller.
fn order(op: &str, args: &[Term]) -> (r: Applied)
    requires
        forall|i: int| 0 <= i < args.len() ==> limbs_fit(#[trigger] args@[i]),
    ensures
        r@ == order_spec(op@, terms_view(args@)),
{
    proof {
        lemma_terms_view(args@);
    }
    if args.len() != 2 {
        return Applied::Stuck;
    }
    let a = &args[0];
    let b = &args[1];
    if let (Term::Str(x), Term::Str(y)) = (a, b) {
        let less = name_less(x.as_str(), y.as_str());
        let greater = name_less(y.as_str(), x.as_str());
        return order_result(op, less, greater);
    }
    if let (Some(x), Some(y)) = (as_big(a), as_big(b)) {
        let less = x.lt(&y);
        let greater = y.lt(&x);
        return order_result(op, less, greater);
    }
    if is_numeric(a) && is_numeric(b) {
        return Applied::Float(op.to_owned(), copy_args(args));
    }
    Applied::Stuck
}

/// The symbol `युग्म(head, tail)`.
fn cons(head: Term, tail: Term) -> (t: Term)
    ensures
        t@ == TermV::Sym("युग्म"@, seq![head@, tail@]),
{
    let ghost (h, tl) = (head@, tail@);
    let args = vec![head, tail];
    proof {
        lemma_terms_view(args@);
        assert(terms_view(args@) =~= seq![h, tl]);
    }
    Term::app("युग्म", args)
}

/// The elements of a proper cons-list, copied.
pub fn list_items(t: &Term) -> (r: Option<Vec<Term>>)
    ensures
        match r {
            Some(items) => list_items_v(t@) == Some(terms_view(items@)),
            None => list_items_v(t@) == None::<Seq<TermV>>,
        },
    decreases t,
{
    match t {
        Term::Sym(n, a) => {
            proof {
                lemma_terms_view(a@);
            }
            if str_eq(n.as_str(), "रिक्त") && a.len() == 0 {
                let v: Vec<Term> = Vec::new();
                proof {
                    assert(terms_view(v@) =~= Seq::<TermV>::empty());
                }
                Some(v)
            } else if str_eq(n.as_str(), "युग्म") && a.len() == 2 {
                match list_items(&a[1]) {
                    Some(mut rest) => {
                        let ghost rest_view = terms_view(rest@);
                        let ghost r0 = rest@;
                        let mut out: Vec<Term> = Vec::new();
                        out.push(clone_term(&a[0]));
                        out.append(&mut rest);
                        proof {
                            lemma_terms_view(out@);
                            lemma_terms_view(r0);
                            assert(terms_view(out@) =~= seq![a@[0]@] + rest_view);
                        }
                        Some(out)
                    },
                    None => None,
                }
            } else {
                None
            }
        },
        _ => None,
    }
}

/// The cons-list of the items, in order.
pub fn make_list(items: Vec<Term>) -> (t: Term)
    ensures
        t@ == make_list_v(terms_view(items@)),
{
    let ghost all = terms_view(items@);
    proof {
        lemma_terms_view(items@);
    }
    let mut items = items;
    let mut t = Term::con("रिक्त");
    proof {
        assert(all.skip(all.len() as int) =~= Seq::<TermV>::empty());
    }
    while items.len() > 0
        invariant
            items.len() <= all.len(),
            forall|j: int| 0 <= j < items.len() ==> #[trigger] items@[j]@ == all[j],
            t@ == make_list_v(all.skip(items.len() as int)),
        decreases items.len(),
    {
        let it = items.pop().unwrap();
        let ghost k = items.len() as int;
        proof {
            assert(it@ == all[k]);
            assert(all.skip(k).drop_first() =~= all.skip(k + 1));
            assert(all.skip(k)[0] == all[k]);
        }
        t = cons(it, t);
    }
    proof {
        assert(all.skip(0) =~= all);
    }
    t
}

/// `++`: strings join, lists append.
fn concat(args: &[Term]) -> (r: Applied)
    ensures
        r@ == concat_spec(terms_view(args@)),
{
    proof {
        lemma_terms_view(args@);
    }
    if args.len() != 2 {
        return Applied::Stuck;
    }
    if let (Term::Str(a), Term::Str(b)) = (&args[0], &args[1]) {
        let mut s = a.clone();
        push_str(&mut s, b.as_str());
        return Applied::Value(Term::Str(s));
    }
    let x = match list_items(&args[0]) {
        Some(x) => x,
        None => {
            return Applied::Stuck;
        },
    };
    let y = match list_items(&args[1]) {
        Some(y) => y,
        None => {
            return Applied::Stuck;
        },
    };
    let ghost (xv, yv) = (terms_view(x@), terms_view(y@));
    let mut all = x;
    let mut rest = y;
    let ghost (x0, y0) = (all@, rest@);
    all.append(&mut rest);
    proof {
        lemma_terms_view(x0);
        lemma_terms_view(y0);
        lemma_terms_view(all@);
        assert(terms_view(all@) =~= xv + yv);
    }
    Applied::Value(make_list(all))
}

/// `दीर्घ`: characters of a string, or entries of a map.
fn length(args: &[Term]) -> (r: Applied)
    ensures
        r@ == length_spec(terms_view(args@)),
{
    proof {
        lemma_terms_view(args@);
    }
    if args.len() != 1 {
        return Applied::Stuck;
    }
    match &args[0] {
        Term::Str(s) => {
            let cs = chars_of(s.as_str());
            Applied::Value(Term::Int(cs.len() as i64))
        },
        Term::Kosha(es) => {
            proof {
                lemma_entries_view(es@);
            }
            Applied::Value(Term::Int(es.len() as i64))
        },
        _ => Applied::Stuck,
    }
}

/// `अंश`: a substring by character position and length.
fn substr(args: &[Term]) -> (r: Applied)
    ensures
        r@ == substr_spec(terms_view(args@)),
{
    proof {
        lemma_terms_view(args@);
    }
    if args.len() != 3 {
        return Applied::Stuck;
    }
    if let (Term::Str(s), Term::Int(start), Term::Int(len)) = (&args[0], &args[1], &args[2]) {
        let cs = chars_of(s.as_str());
        let st = (if *start < 0 {
            0
        } else {
            *start
        }) as usize;
        let n = (if *len < 0 {
            0
        } else {
            *len
        }) as usize;
        let from = if st < cs.len() {
            st
        } else {
            cs.len()
        };
        let to = if n < cs.len() - from {
            from + n
        } else {
            cs.len()
        };
        let mut out = String::new();
        let mut i = from;
        while i < to
            invariant
                from <= i <= to <= cs.len(),
                cs@ == s@,
                out@ == cs@.subrange(from as int, i as int),
            decreases to - i,
        {
            push_char(&mut out, cs[i]);
            proof {
                assert(cs@.subrange(from as int, i + 1) =~= cs@.subrange(from as int, i as int).push(
                    cs@[i as int],
                ));
            }
            i = i + 1;
        }
        return Applied::Value(Term::Str(out));
    }
    Applied::Stuck
}

/// `अक्षर`: the list of a string's characters.
fn chars(args: &[Term]) -> (r: Applied)
    ensures
        r@ == chars_spec(terms_view(args@)),
{
    proof {
        lemma_terms_view(args@);
    }
    if args.len() != 1 {
        return Applied::Stuck;
    }
    match &args[0] {
        Term::Str(s) => {
            let cs = chars_of(s.as_str());
            let mut items: Vec<Term> = Vec::new();
            let mut i: usize = 0;
            while i < cs.len()
                invariant
                    i <= cs.len(),
                    cs@ == s@,
                    items.len() == i,
                    forall|j: int| 0 <= j < i ==> (#[trigger] items@[j])@ == TermV::Str(seq![s@[j]]),
                decreases cs.len() - i,
            {
                let mut one = String::new();
                push_char(&mut one, cs[i]);
                proof {
                    assert(one@ =~= seq![s@[i as int]]);
                }
                items.push(Term::Str(one));
                i = i + 1;
            }
            proof {
                lemma_terms_view(items@);
                assert(terms_view(items@) =~= Seq::new(s@.len(), |k: int| TermV::Str(seq![s@[k]])));
            }
            Applied::Value(make_list(items))
        },
        _ => Applied::Stuck,
    }
}

/// Where key `k` is, or would go, among the entries: the first entry whose
/// printed key does not come before `k`'s, and whether it is `k`'s.
fn map_search(es: &Vec<(Term, Term)>, k: &Term) -> (r: (usize, bool))
    ensures
        r.0 as int == search_pos(key_texts(entries_view(es@)), key_text(k@)),
        r.1 == (map_lookup_v(entries_view(es@), k@) is Some),
        r.0 <= es.len(),
{
    let ghost ev = entries_view(es@);
    let ghost ts = key_texts(ev);
    proof {
        lemma_entries_view(es@);
    }
    let kt = show(k, true);
    let mut i: usize = 0;
    proof {
        assert(ts.skip(0) =~= ts);
    }
    while i < es.len()
        invariant
            i <= es.len(),
            ev == entries_view(es@),
            ts == key_texts(ev),
            ev.len() == es.len(),
            forall|j: int| 0 <= j < es.len() ==> #[trigger] ev[j] == (es@[j].0@, es@[j].1@),
            kt@ == key_text(k@),
            search_pos(ts, kt@) == i + search_pos(ts.skip(i as int), kt@),
        decreases es.len() - i,
    {
        let t = show(&es[i].0, true);
        proof {
            assert(ts.skip(i as int)[0] == t@);
            assert(ts.skip(i as int).drop_first() =~= ts.skip(i + 1));
        }
        if !name_less(t.as_str(), kt.as_str()) {
            let found = str_eq(t.as_str(), kt.as_str());
            return (i, found);
        }
        i = i + 1;
    }
    proof {
        assert(ts.skip(i as int) =~= Seq::<Seq<char>>::empty());
    }
    (i, false)
}

/// A copy of map entries.
fn copy_entries(es: &Vec<(Term, Term)>) -> (r: Vec<(Term, Term)>)
    ensures
        entries_view(r@) == entries_view(es@),
{
    let mut out: Vec<(Term, Term)> = Vec::new();
    let mut i: usize = 0;
    while i < es.len()
        invariant
            i <= es.len(),
            out.len() == i,
            forall|j: int|
                0 <= j < i ==> (#[trigger] out@[j]).0@ == es@[j].0@ && out@[j].1@ == es@[j].1@,
        decreases es.len() - i,
    {
        out.push((clone_term(&es[i].0), clone_term(&es[i].1)));
        i = i + 1;
    }
    proof {
        lemma_entries_view(out@);
        lemma_entries_view(es@);
        assert(entries_view(out@) =~= entries_view(es@));
    }
    out
}

/// `समावेश(map, k, v)`.
fn map_insert(args: &[Term]) -> (r: Applied)
    ensures
        r@ == map_insert_spec(terms_view(args@)),
{
    proof {
        lemma_terms_view(args@);
    }
    if args.len() != 3 {
        return Applied::Stuck;
    }
    if let Term::Kosha(es) = &args[0] {
        let ghost ev = entries_view(es@);
        let (i, found) = map_search(es, &args[1]);
        let mut out = copy_entries(es);
        proof {
            lemma_entries_view(out@);
            lemma_entries_view(es@);
        }
        if found {
            let key = clone_term(&out[i].0);
            out.set(i, (key, clone_term(&args[2])));
            proof {
                lemma_entries_view(out@);
                assert(entries_view(out@) =~= ev.update(i as int, (ev[i as int].0, args@[2]@)));
            }
        } else {
            out.insert(i, (clone_term(&args[1]), clone_term(&args[2])));
            proof {
                lemma_entries_view(out@);
                assert(entries_view(out@) =~= ev.insert(i as int, (args@[1]@, args@[2]@)));
            }
        }
        return Applied::Value(Term::Kosha(out));
    }
    Applied::Stuck
}

/// `प्राप्ति(map, k)` or `प्राप्ति(map, k, default)`.
fn map_get(args: &[Term]) -> (r: Applied)
    ensures
        r@ == map_get_spec(terms_view(args@)),
{
    proof {
        lemma_terms_view(args@);
    }
    if args.len() != 2 && args.len() != 3 {
        return Applied::Stuck;
    }
    if let Term::Kosha(es) = &args[0] {
        proof {
            lemma_entries_view(es@);
        }
        let (i, found) = map_search(es, &args[1]);
        if found {
            return Applied::Value(clone_term(&es[i].1));
        }
        if args.len() == 2 {
            return Applied::Value(dosha("कुञ्जिका न प्राप्ता (key not found)"));
        }
        return Applied::Value(clone_term(&args[2]));
    }
    Applied::Stuck
}

/// `अस्ति(map, k)`.
fn map_has(args: &[Term]) -> (r: Applied)
    ensures
        r@ == map_has_spec(terms_view(args@)),
{
    proof {
        lemma_terms_view(args@);
    }
    if args.len() != 2 {
        return Applied::Stuck;
    }
    if let Term::Kosha(es) = &args[0] {
        let (_, found) = map_search(es, &args[1]);
        return Applied::Value(boolean(found));
    }
    Applied::Stuck
}

/// `निष्कास(map, k)`.
fn map_remove(args: &[Term]) -> (r: Applied)
    ensures
        r@ == map_remove_spec(terms_view(args@)),
{
    proof {
        lemma_terms_view(args@);
    }
    if args.len() != 2 {
        return Applied::Stuck;
    }
    if let Term::Kosha(es) = &args[0] {
        let ghost ev = entries_view(es@);
        let (i, found) = map_search(es, &args[1]);
        let mut out = copy_entries(es);
        if found {
            proof {
                lemma_entries_view(out@);
            }
            let _ = out.remove(i);
            proof {
                lemma_entries_view(out@);
                lemma_entries_view(es@);
                assert(entries_view(out@) =~= ev.remove(i as int));
            }
        }
        return Applied::Value(Term::Kosha(out));
    }
    Applied::Stuck
}

/// `कुञ्जिकाः` (keys, `keys`) or `मूल्यानि` (values) of a map, as a list.
fn map_column(args: &[Term], keys: bool) -> (r: Applied)
    ensures
        r@ == map_column_spec(terms_view(args@), keys),
{
    proof {
        lemma_terms_view(args@);
    }
    if args.len() != 1 {
        return Applied::Stuck;
    }
    if let Term::Kosha(es) = &args[0] {
        let ghost ev = entries_view(es@);
        proof {
            lemma_entries_view(es@);
        }
        let mut items: Vec<Term> = Vec::new();
        let mut i: usize = 0;
        while i < es.len()
            invariant
                i <= es.len(),
                items.len() == i,
                ev == entries_view(es@),
                ev.len() == es.len(),
                forall|j: int| 0 <= j < es.len() ==> #[trigger] ev[j] == (es@[j].0@, es@[j].1@),
                forall|j: int|
                    0 <= j < i ==> (#[trigger] items@[j])@ == (if keys {
                        ev[j].0
                    } else {
                        ev[j].1
                    }),
            decreases es.len() - i,
        {
            let item = if keys {
                clone_term(&es[i].0)
            } else {
                clone_term(&es[i].1)
            };
            items.push(item);
            i = i + 1;
        }
        proof {
            lemma_terms_view(items@);
            assert(terms_view(items@) =~= ev.map_values(
                |e: (TermV, TermV)|
                    if keys {
                        e.0
                    } else {
                        e.1
                    },
            ));
        }
        return Applied::Value(make_list(items));
    }
    Applied::Stuck
}

/// Apply builtin `name` to already-evaluated arguments. `Stuck` when the
/// operation does not apply (wrong arity or kinds of value): the term then
/// stays as it is, surfacing the mismatch.
pub fn apply(name: &str, args: &[Term]) -> (r: Applied)
    requires
        forall|i: int| 0 <= i < args.len() ==> limbs_fit(#[trigger] args@[i]),
    ensures
        r@ == apply_spec(name@, terms_view(args@)),
{
    proof {
        lemma_terms_view(args@);
    }
    if str_eq(name, "+") || str_eq(name, "-") || str_eq(name, "*") || str_eq(name, "/") || str_eq(
        name,
        "%",
    ) {
        arith(name, args)
    } else if str_eq(name, "neg") {
        negate(args)
    } else if str_eq(name, "==") {
        equality(name, args, false)
    } else if str_eq(name, "!=") {
        equality(name, args, true)
    } else if str_eq(name, "<") || str_eq(name, "<=") || str_eq(name, ">") || str_eq(name, ">=") {
        order(name, args)
    } else if str_eq(name, "++") {
        concat(args)
    } else if str_eq(name, "दीर्घ") {
        length(args)
    } else if str_eq(name, "रूप") {
        if args.len() == 1 {
            Applied::Value(Term::Str(show(&args[0], true)))
        } else {
            Applied::Stuck
        }
    } else if str_eq(name, "अंश") {
        substr(args)
    } else if str_eq(name, "अक्षर") {
        chars(args)
    } else if str_eq(name, "रिक्तकोश") {
        let es: Vec<(Term, Term)> = Vec::new();
        proof {
            assert(entries_view(es@) =~= Seq::<(TermV, TermV)>::empty());
        }
        Applied::Value(Term::Kosha(es))
    } else if str_eq(name, "समावेश") {
        map_insert(args)
    } else if str_eq(name, "प्राप्ति") {
        map_get(args)
    } else if str_eq(name, "अस्ति") {
        map_has(args)
    } else if str_eq(name, "निष्कास") {
        map_remove(args)
    } else if str_eq(name, "कुञ्जिकाः") {
        map_column(args, true)
    } else if str_eq(name, "मूल्यानि") {
        map_column(args, false)
    } else {
        Applied::Stuck
    }
}

/// `search_pos` is the first position whose name does not come before `k`.
pub proof fn lemma_search_pos(ts: Seq<Seq<char>>, k: Seq<char>)
    ensures
        0 <= search_pos(ts, k) <= ts.len(),
        forall|j: int| 0 <= j < search_pos(ts, k) ==> name_lt(#[trigger] ts[j], k),
        search_pos(ts, k) < ts.len() ==> !name_lt(ts[search_pos(ts, k)], k),
    decreases ts.len(),
{
    if ts.len() > 0 && name_lt(ts[0], k) {
        let t = ts.drop_first();
        lemma_search_pos(t, k);
        assert forall|j: int| 0 <= j < search_pos(ts, k) implies name_lt(#[trigger] ts[j], k) by {
            if j > 0 {
                assert(ts[j] == t[j - 1]);
            }
        }
    }
}

/// A position before which every name comes before `k`, and at which the
/// name does not, is `search_pos`.
pub proof fn lemma_search_pos_unique(ts: Seq<Seq<char>>, k: Seq<char>, p: int)
    requires
        0 <= p <= ts.len(),
        forall|j: int| 0 <= j < p ==> name_lt(#[trigger] ts[j], k),
        p < ts.len() ==> !name_lt(ts[p], k),
    ensures
        search_pos(ts, k) == p,
    decreases p,
{
    if p > 0 {
        let t = ts.drop_first();
        assert forall|j: int| 0 <= j < p - 1 implies name_lt(#[trigger] t[j], k) by {
            assert(t[j] == ts[j + 1]);
        }
        if p - 1 < t.len() {
            assert(t[p - 1] == ts[p]);
        }
        lemma_search_pos_unique(t, k, p - 1);
        assert(name_lt(ts[0], k));
    }
}

/// The keys of map entries printed, position by position.
proof fn lemma_key_texts(es: Seq<(TermV, TermV)>)
    ensures
        key_texts(es).len() == es.len(),
        forall|i: int| 0 <= i < es.len() ==> #[trigger] key_texts(es)[i] == key_text(es[i].0),
{
}

/// Reading a key back after writing it gives the written value: after
/// `समावेश(map, k, v)`, `प्राप्ति(…, k)` is `v`.
pub proof fn lemma_get_after_insert(es: Seq<(TermV, TermV)>, k: TermV, v: TermV)
    ensures
        map_insert_spec(seq![TermV::Kosha(es), k, v]) matches AppliedV::Value(TermV::Kosha(es2)) && map_get_spec(
            seq![TermV::Kosha(es2), k],
        ) == AppliedV::Value(v),
{
    let kt = key_text(k);
    let ts = key_texts(es);
    lemma_key_texts(es);
    lemma_search_pos(ts, kt);
    let p = search_pos(ts, kt);
    match map_lookup_v(es, k) {
        Some(i) => {
            let es2 = es.update(i, (es[i].0, v));
            lemma_key_texts(es2);
            assert(key_texts(es2) =~= ts);
        },
        None => {
            let es2 = es.insert(p, (k, v));
            lemma_key_texts(es2);
            let ts2 = key_texts(es2);
            assert(ts2 =~= ts.insert(p, kt));
            lemma_name_lt_irreflexive(kt);
            assert forall|j: int| 0 <= j < p implies name_lt(#[trigger] ts2[j], kt) by {
                assert(ts2[j] == ts[j]);
            }
            lemma_search_pos_unique(ts2, kt, p);
        },
    }
}

/// Writing into a map whose keys are strictly sorted by printed form keeps
/// them so: maps stay sorted and free of duplicate keys.
pub proof fn lemma_insert_keeps_keys_sorted(es: Seq<(TermV, TermV)>, k: TermV, v: TermV)
    requires
        strictly_sorted(key_texts(es)),
    ensures
        map_insert_spec(seq![TermV::Kosha(es), k, v]) matches AppliedV::Value(TermV::Kosha(es2))
            && strictly_sorted(key_texts(es2)),
{
    let kt = key_text(k);
    let ts = key_texts(es);
    lemma_key_texts(es);
    lemma_search_pos(ts, kt);
    let p = search_pos(ts, kt);
    match map_lookup_v(es, k) {
        Some(i) => {
            let es2 = es.update(i, (es[i].0, v));
            lemma_key_texts(es2);
            assert(key_texts(es2) =~= ts);
        },
        None => {
            let es2 = es.insert(p, (k, v));
            lemma_key_texts(es2);
            let ts2 = key_texts(es2);
            assert(ts2 =~= ts.insert(p, kt));
            if p < ts.len() {
                assert(ts[p] != kt);
                lemma_name_lt_total(kt, ts[p]);
            }
            assert forall|i: int, j: int| 0 <= i < j < ts2.len() implies name_lt(
                #[trigger] ts2[i],
                #[trigger] ts2[j],
            ) by {
                if j < p {
                    assert(ts2[i] == ts[i] && ts2[j] == ts[j]);
                } else if j == p {
                    assert(ts2[i] == ts[i]);
                } else if i > p {
                    assert(ts2[i] == ts[i - 1] && ts2[j] == ts[j - 1]);
                } else if i == p {
                    assert(ts2[j] == ts[j - 1]);
                    if j - 1 > p {
                        assert(name_lt(ts[p], ts[j - 1]));
                        lemma_name_lt_transitive(kt, ts[p], ts[j - 1]);
                    }
                } else {
                    assert(ts2[i] == ts[i] && ts2[j] == ts[j - 1]);
                    assert(name_lt(ts[i], kt));
                    if j - 1 == p {
                        lemma_name_lt_transitive(ts[i], kt, ts[p]);
                    } else {
                        assert(name_lt(ts[i], ts[j - 1]));
                    }
                }
            }
        },
    }
}

/// After `निष्कास(map, k)` on a map with strictly sorted keys, `अस्ति(…, k)`
/// is false.
pub proof fn lemma_removed_key_is_absent(es: Seq<(TermV, TermV)>, k: TermV)
    requires
        strictly_sorted(key_texts(es)),
    ensures
        map_remove_spec(seq![TermV::Kosha(es), k]) matches AppliedV::Value(TermV::Kosha(es2))
            && map_has_spec(seq![TermV::Kosha(es2), k]) == AppliedV::Value(boolean_v(false)),
{
    let kt = key_text(k);
    let ts = key_texts(es);
    lemma_key_texts(es);
    lemma_search_pos(ts, kt);
    match map_lookup_v(es, k) {
        Some(i) => {
            let es2 = es.remove(i);
            lemma_key_texts(es2);
            let ts2 = key_texts(es2);
            assert(ts2 =~= ts.remove(i));
            assert forall|j: int| 0 <= j < i implies name_lt(#[trigger] ts2[j], kt) by {
                assert(ts2[j] == ts[j]);
            }
            if i < ts2.len() {
                assert(ts2[i] == ts[i + 1]);
                assert(name_lt(ts[i], ts[i + 1]));
                lemma_name_lt_irreflexive(kt);
                if name_lt(ts[i + 1], kt) {
                    lemma_name_lt_transitive(kt, ts[i + 1], kt);
                }
            }
            lemma_search_pos_unique(ts2, kt, i);
        },
        None => {},
    }
}

/// The entry whose key prints as `t` (the first, should there be several).
pub open spec fn entry_for(es: Seq<(TermV, TermV)>, t: Seq<char>) -> Option<(TermV, TermV)>
    decreases es.len(),
{
    if es.len() == 0 {
        None
    } else if key_text(es[0].0) == t {
        Some(es[0])
    } else {
        entry_for(es.drop_first(), t)
    }
}

/// The entries of `समावेश(map, k, v)` on a map with entries `es`.
pub open spec fn inserted(es: Seq<(TermV, TermV)>, k: TermV, v: TermV) -> Seq<(TermV, TermV)> {
    match map_lookup_v(es, k) {
        Some(i) => es.update(i, (es[i].0, v)),
        None => es.insert(search_pos(key_texts(es), key_text(k)), (k, v)),
    }
}

/// In a map with strictly sorted keys, each entry is the one for its key,
/// and a key printed as no entry's key has none.
proof fn lemma_entry_for_sorted(es: Seq<(TermV, TermV)>, t: Seq<char>)
    requires
        strictly_sorted(key_texts(es)),
    ensures
        forall|j: int| 0 <= j < es.len() ==> entry_for(es, key_text(#[trigger] es[j].0)) == Some(es[j]),
        (forall|j: int| 0 <= j < es.len() ==> key_text(#[trigger] es[j].0) != t) ==> entry_for(es, t) is None,
    decreases es.len(),
{
    lemma_key_texts(es);
    if es.len() > 0 {
        let tail = es.drop_first();
        lemma_key_texts(tail);
        assert(key_texts(tail) =~= key_texts(es).drop_first());
        lemma_entry_for_sorted(tail, t);
        assert forall|j: int| 0 <= j < es.len() implies entry_for(es, key_text(#[trigger] es[j].0)) == Some(es[j]) by {
            if j > 0 {
                assert(name_lt(key_texts(es)[0], key_texts(es)[j]));
                lemma_name_lt_irreflexive(key_text(es[0].0));
                assert(tail[j - 1] == es[j]);
            }
        }
    }
}

/// Two maps with strictly sorted keys and the same entry for every key are
/// the same entries.
proof fn lemma_sorted_entries_extensional(a: Seq<(TermV, TermV)>, b: Seq<(TermV, TermV)>)
    requires
        strictly_sorted(key_texts(a)),
        strictly_sorted(key_texts(b)),
        forall|t: Seq<char>| #[trigger] entry_for(a, t) == entry_for(b, t),
    ensures
        a == b,
    decreases a.len() + b.len(),
{
    lemma_key_texts(a);
    lemma_key_texts(b);
    if a.len() == 0 && b.len() == 0 {
        assert(a =~= b);
    } else if a.len() == 0 {
        lemma_entry_for_sorted(b, key_text(b[0].0));
        lemma_entry_for_sorted(a, key_text(b[0].0));
        assert(entry_for(a, key_text(b[0].0)) == entry_for(b, key_text(b[0].0)));
    } else if b.len() == 0 {
        lemma_entry_for_sorted(a, key_text(a[0].0));
        lemma_entry_for_sorted(b, key_text(a[0].0));
        assert(entry_for(a, key_text(a[0].0)) == entry_for(b, key_text(a[0].0)));
    } else {
        let ta = key_text(a[0].0);
        let tb = key_text(b[0].0);
        lemma_entry_for_sorted(a, ta);
        lemma_entry_for_sorted(b, ta);
        lemma_entry_for_sorted(a, tb);
        lemma_entry_for_sorted(b, tb);
        assert(entry_for(a, ta) == entry_for(b, ta));
        assert(entry_for(a, tb) == entry_for(b, tb));
        // The first keys agree.
        let j = choose|j: int| 0 <= j < b.len() && key_text(b[j].0) == ta;
        let i = choose|i: int| 0 <= i < a.len() && key_text(a[i].0) == tb;
        if ta != tb {
            if j > 0 {
                assert(name_lt(key_texts(b)[0], key_texts(b)[j]));
            }
            if i > 0 {
                assert(name_lt(key_texts(a)[0], key_texts(a)[i]));
            }
            lemma_name_lt_transitive(ta, tb, ta);
            lemma_name_lt_irreflexive(ta);
        }
        assert(a[0] == b[0]);
        let at = a.drop_first();
        let bt = b.drop_first();
        lemma_key_texts(at);
        lemma_key_texts(bt);
        assert(key_texts(at) =~= key_texts(a).drop_first());
        assert(key_texts(bt) =~= key_texts(b).drop_first());
        assert forall|t: Seq<char>| #[trigger] entry_for(at, t) == entry_for(bt, t) by {
            if t == ta {
                lemma_entry_for_sorted(at, t);
                lemma_entry_for_sorted(bt, t);
                assert forall|x: int| 0 <= x < at.len() implies key_text(#[trigger] at[x].0) != t by {
                    assert(name_lt(key_texts(a)[0], key_texts(a)[x + 1]));
                    lemma_name_lt_irreflexive(t);
                }
                assert forall|x: int| 0 <= x < bt.len() implies key_text(#[trigger] bt[x].0) != t by {
                    assert(name_lt(key_texts(b)[0], key_texts(b)[x + 1]));
                    lemma_name_lt_irreflexive(t);
                }
            } else {
                assert(entry_for(a, t) == entry_for(b, t));
            }
        }
        lemma_sorted_entries_extensional(at, bt);
        assert(a =~= seq![a[0]] + at);
        assert(b =~= seq![b[0]] + bt);
    }
}

/// What `समावेश(map, k, v)` does to the entry of each key: the entry for
/// `k` holds `v` (under the key already there, if any); every other key
/// keeps its entry.
#[verifier::spinoff_prover]
#[verifier::rlimit(50)]
proof fn lemma_inserted_entries(es: Seq<(TermV, TermV)>, k: TermV, v: TermV, t: Seq<char>)
    requires
        strictly_sorted(key_texts(es)),
    ensures
        strictly_sorted(key_texts(inserted(es, k, v))),
        entry_for(inserted(es, k, v), t) == if t == key_text(k) {
            Some(
                match entry_for(es, key_text(k)) {
                    Some(e) => (e.0, v),
                    None => (k, v),
                },
            )
        } else {
            entry_for(es, t)
        },
{
    lemma_insert_keeps_keys_sorted(es, k, v);
    let kt = key_text(k);
    let ts = key_texts(es);
    let ins = inserted(es, k, v);
    lemma_key_texts(es);
    lemma_key_texts(ins);
    lemma_search_pos(ts, kt);
    lemma_entry_for_sorted(es, t);
    lemma_entry_for_sorted(es, kt);
    lemma_entry_for_sorted(ins, t);
    match map_lookup_v(es, k) {
        Some(i) => {
            assert(ins[i] == (es[i].0, v));
            assert forall|j: int| 0 <= j < ins.len() implies key_text(#[trigger] ins[j].0) == key_text(es[j].0) by {
            }
            if t != kt {
                if exists|j: int| 0 <= j < es.len() && key_text(es[j].0) == t {
                    let j = choose|j: int| 0 <= j < es.len() && key_text(es[j].0) == t;
                    assert(j != i);
                    assert(ins[j] == es[j]);
                    assert(entry_for(es, t) == Some(es[j]));
                    assert(entry_for(ins, t) == Some(ins[j]));
                } else {
                    assert(entry_for(es, t) is None);
                    assert forall|x: int| 0 <= x < ins.len() implies key_text(#[trigger] ins[x].0) != t by {
                        assert(key_text(ins[x].0) == key_text(es[x].0));
                    }
                    assert(entry_for(ins, t) is None);
                }
            } else {
                assert(key_text(es[i].0) == kt);
                assert(entry_for(es, kt) == Some(es[i]));
                assert(key_text(ins[i].0) == kt);
                assert(entry_for(ins, kt) == Some(ins[i]));
            }
        },
        None => {
            let p = search_pos(ts, kt);
            assert(ins[p] == (k, v));
            assert forall|j: int| 0 <= j < es.len() && key_text(es[j].0) == kt implies false by {
                lemma_name_lt_irreflexive(kt);
                assert forall|x: int| 0 <= x < j implies name_lt(#[trigger] ts[x], kt) by {
                    assert(name_lt(ts[x], ts[j]));
                }
                lemma_search_pos_unique(ts, kt, j);
            }
            if t == kt {
                assert(entry_for(es, kt) is None);
                assert(key_text(ins[p].0) == kt);
                assert(entry_for(ins, kt) == Some(ins[p]));
            }
            if t != kt {
                if exists|j: int| 0 <= j < es.len() && key_text(es[j].0) == t {
                    let j = choose|j: int| 0 <= j < es.len() && key_text(es[j].0) == t;
                    if j < p {
                        assert(ins[j] == es[j]);
                    } else {
                        assert(ins[j + 1] == es[j]);
                    }
                } else {
                    assert forall|x: int| 0 <= x < ins.len() implies key_text(#[trigger] ins[x].0) != t by {
                        if x < p {
                            assert(ins[x] == es[x]);
                        } else if x > p {
                            assert(ins[x] == es[x - 1]);
                        }
                    }
                }
            }
        },
    }
}

/// Maps are value-equal whatever the order of insertion: on a map with
/// strictly sorted keys, inserting two keys that print differently gives the
/// same entries in either order.
pub proof fn lemma_insert_order_irrelevant(es: Seq<(TermV, TermV)>, k1: TermV, v1: TermV, k2: TermV, v2: TermV)
    requires
        strictly_sorted(key_texts(es)),
        key_text(k1) != key_text(k2),
    ensures
        map_insert_spec(seq![TermV::Kosha(es), k1, v1]) matches AppliedV::Value(TermV::Kosha(a))
            && map_insert_spec(seq![TermV::Kosha(es), k2, v2]) matches AppliedV::Value(TermV::Kosha(b))
            && map_insert_spec(seq![TermV::Kosha(a), k2, v2]) == map_insert_spec(seq![TermV::Kosha(b), k1, v1]),
{
    let a = inserted(es, k1, v1);
    let b = inserted(es, k2, v2);
    let ab = inserted(a, k2, v2);
    let ba = inserted(b, k1, v1);
    lemma_inserted_entries(es, k1, v1, key_text(k1));
    lemma_inserted_entries(es, k2, v2, key_text(k2));
    lemma_inserted_entries(a, k2, v2, key_text(k2));
    lemma_inserted_entries(b, k1, v1, key_text(k1));
    assert forall|t: Seq<char>| #[trigger] entry_for(ab, t) == entry_for(ba, t) by {
        lemma_inserted_entries(es, k1, v1, t);
        lemma_inserted_entries(es, k2, v2, t);
        lemma_inserted_entries(a, k2, v2, t);
        lemma_inserted_entries(b, k1, v1, t);
        lemma_inserted_entries(es, k1, v1, key_text(k2));
        lemma_inserted_entries(es, k2, v2, key_text(k1));
    }
    lemma_sorted_entries_extensional(ab, ba);
}

/// Integer arithmetic is exact: `+`, `-` and `*` on integers give the
/// mathematical result, as an `Int` exactly when it fits in 64 bits.
pub proof fn lemma_integer_arithmetic_exact(op: Seq<char>, a: TermV, b: TermV)
    requires
        op == "+"@ || op == "-"@ || op == "*"@,
        is_integer_v(a),
        is_integer_v(b),
    ensures
        apply_spec(op, seq![a, b]) matches AppliedV::Value(r) && is_integer_v(r) && int_of(r) == (
        if op == "+"@ {
            int_of(a) + int_of(b)
        } else if op == "-"@ {
            int_of(a) - int_of(b)
        } else {
            int_of(a) * int_of(b)
        }) && (r is Int <==> i64::MIN <= int_of(r) <= i64::MAX),
{
    reveal_strlit("+");
    reveal_strlit("-");
    reveal_strlit("*");
    reveal_strlit("/");
    reveal_strlit("%");
    let args = seq![a, b];
    assert(args[0] == a && args[1] == b);
}

/// Integer division by a non-zero divisor recombines: the quotient and
/// remainder that `/` and `%` give satisfy `q·b + r = a`, with `|r| < |b|`
/// and `r` taking `a`'s sign.
pub proof fn lemma_integer_division_recombines(a: TermV, b: TermV)
    requires
        is_integer_v(a),
        is_integer_v(b),
        int_of(b) != 0,
    ensures
        apply_spec("/"@, seq![a, b]) matches AppliedV::Value(q) && apply_spec("%"@, seq![a, b]) matches AppliedV::Value(r)
            && int_of(q) * int_of(b) + int_of(r) == int_of(a) && crate::bigint::abs(int_of(r))
            < crate::bigint::abs(int_of(b)) && (int_of(r) == 0 || (int_of(r) < 0) == (int_of(a) < 0)),
{
    reveal_strlit("+");
    reveal_strlit("-");
    reveal_strlit("*");
    reveal_strlit("/");
    reveal_strlit("%");
    let args = seq![a, b];
    assert(args[0] == a && args[1] == b);
    let (x, y) = (int_of(a), int_of(b));
    assert("/"@[0] == '/' && "%"@[0] == '%' && "+"@[0] == '+' && "-"@[0] == '-' && "*"@[0] == '*');
    assert("/"@ != "+"@ && "/"@ != "-"@ && "/"@ != "*"@);
    assert("%"@ != "+"@ && "%"@ != "-"@ && "%"@ != "*"@ && "%"@ != "/"@);
    crate::bigint::lemma_trunc_div_rem(x, y);
    let q = from_big_v(trunc_div(x, y));
    let r = from_big_v(trunc_rem(x, y));
    assert(apply_spec("/"@, args) == AppliedV::Value(q));
    assert(apply_spec("%"@, args) == AppliedV::Value(r));
    assert(int_of(q) == trunc_div(x, y) && int_of(r) == trunc_rem(x, y));
    assert(int_of(q) * y == trunc_div(x, y) * y);
}

/// `!=` answers the opposite of `==`: on arguments where `==` gives a truth
/// value, `!=` gives the other one; where `==` hands its operands to
/// floating point, so does `!=` (with the same operands); and both are
/// stuck on the same arguments.
pub proof fn lemma_not_equal_negates_equal(args: Seq<TermV>, b: bool)
    ensures
        apply_spec("=="@, args) == AppliedV::Value(boolean_v(b)) ==> apply_spec("!="@, args) == AppliedV::Value(
            boolean_v(!b),
        ),
        apply_spec("=="@, args) matches AppliedV::Float(_, xs) ==> apply_spec("!="@, args) == AppliedV::Float(
            "!="@,
            xs,
        ),
        apply_spec("=="@, args) is Stuck <==> apply_spec("!="@, args) is Stuck,
{
    reveal_strlit("+");
    reveal_strlit("-");
    reveal_strlit("*");
    reveal_strlit("/");
    reveal_strlit("%");
    reveal_strlit("neg");
    reveal_strlit("==");
    reveal_strlit("!=");
    reveal_strlit("सत्य");
    reveal_strlit("असत्य");
    assert("सत्य"@.len() != "असत्य"@.len());
    assert("-"@[0] != "+"@[0]);
    assert("*"@[0] != "+"@[0]);
    assert("*"@[0] != "-"@[0]);
    assert("/"@[0] != "+"@[0]);
    assert("/"@[0] != "-"@[0]);
    assert("/"@[0] != "*"@[0]);
    assert("%"@[0] != "+"@[0]);
    assert("%"@[0] != "-"@[0]);
    assert("%"@[0] != "*"@[0]);
    assert("%"@[0] != "/"@[0]);
    assert("neg"@.len() != "+"@.len());
    assert("neg"@.len() != "-"@.len());
    assert("neg"@.len() != "*"@.len());
    assert("neg"@.len() != "/"@.len());
    assert("neg"@.len() != "%"@.len());
    assert("=="@.len() != "+"@.len());
    assert("=="@.len() != "-"@.len());
    assert("=="@.len() != "*"@.len());
    assert("=="@.len() != "/"@.len());
    assert("=="@.len() != "%"@.len());
    assert("=="@.len() != "neg"@.len());
    assert("!="@.len() != "+"@.len());
    assert("!="@.len() != "-"@.len());
    assert("!="@.len() != "*"@.len());
    assert("!="@.len() != "/"@.len());
    assert("!="@.len() != "%"@.len());
    assert("!="@.len() != "neg"@.len());
    assert("!="@[0] != "=="@[0]);
}

/// `==` on two strings, or on two integers, is their equality.
pub proof fn lemma_equality_on_strings_and_integers(a: Seq<char>, b: Seq<char>, x: TermV, y: TermV)
    requires
        is_integer_v(x),
        is_integer_v(y),
    ensures
        apply_spec("=="@, seq![TermV::Str(a), TermV::Str(b)]) == AppliedV::Value(boolean_v(a == b)),
        apply_spec("=="@, seq![x, y]) == AppliedV::Value(boolean_v(int_of(x) == int_of(y))),
{
    reveal_strlit("+");
    reveal_strlit("-");
    reveal_strlit("*");
    reveal_strlit("/");
    reveal_strlit("%");
    reveal_strlit("neg");
    reveal_strlit("==");
    reveal_strlit("!=");
    assert("=="@.len() != "+"@.len());
    assert("=="@.len() != "neg"@.len());
}

} // verus!
