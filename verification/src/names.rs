//! Bilingual naming: Devanagari names are canonical; Latin (and alternate
//! Sanskrit) spellings are aliases that canonicalise to them. This lets the
//! same program be written keyboard-friendly Latin or in Devanagari.
use crate::decimal::{ascii_digit_value, is_ascii_digit_char};
use crate::text::{chars_of, push_char, str_eq};
use vstd::prelude::*;

verus! {

/// (alias, canonical) pairs for ordinary identifiers (builtins & stdlib).
///
/// Operator *words* like `add` map to the operator symbol the engine
/// understands (`+`), which infix sugar also produces.
pub const IDENT_ALIASES: [(&'static str, &'static str); 57] = [
    // booleans / unit / lists
    ("true", "सत्य"),
    ("false", "असत्य"),
    ("unit", "एकक"),
    ("cons", "युग्म"),
    ("nil", "रिक्त"),
    ("none", "रिक्त"),
    // arithmetic (word spellings → operator symbol)
    ("add", "+"),
    ("योग", "+"),
    ("sub", "-"),
    ("वियोग", "-"),
    ("mul", "*"),
    ("गुणन", "*"),
    ("div", "/"),
    ("भाग", "/"),
    ("mod", "%"),
    ("शेष", "%"),
    // comparison
    ("eq", "=="),
    ("तुल्य", "=="),
    ("ne", "!="),
    ("lt", "<"),
    ("le", "<="),
    ("gt", ">"),
    ("ge", ">="),
    // logic
    ("not", "न"),
    ("and", "च"),
    ("or", "वा"),
    // string / list builtins
    ("concat", "++"),
    ("संयोग", "++"),
    ("len", "दीर्घ"),
    ("length", "दीर्घ"),
    ("to_str", "रूप"),
    ("show", "रूप"),
    ("substr", "अंश"),
    ("chars", "अक्षर"),
    // higher-order stdlib
    ("map", "प्रति"),
    ("filter", "छन्न"),
    ("fold", "संहार"),
    ("reverse", "विपर्यय"),
    ("append", "योजन"),
    ("head", "शीर्ष"),
    ("tail", "पुच्छ"),
    ("member", "सदस्य"),
    ("range", "श्रेणी"),
    ("sum", "समष्टि"),
    // io actions
    ("pure", "शुद्ध"),
    ("return", "शुद्ध"),
    ("bind", "बन्ध"),
    ("print", "मुद्रण"),
    ("println", "मुद्रण"),
    ("read", "पठन"),
    ("read_line", "पठन"),
    ("seq", "अनुक्रम"),
    ("main", "मुख्य"),
    ("error", "दोष"),
    // maps
    ("get", "प्राप्ति"),
    ("insert", "समावेश"),
    ("emptymap", "रिक्तकोश"),
];

/// The canonical spelling of `name` under the alias `table`: the canonical
/// name of the first matching alias, or `name` itself.
pub open spec fn lookup_alias(table: Seq<(&str, &str)>, name: Seq<char>) -> Seq<char>
    decreases table.len(),
{
    if table.len() == 0 {
        name
    } else if table[0].0@ == name {
        table[0].1@
    } else {
        lookup_alias(table.drop_first(), name)
    }
}

/// The canonical spelling of an identifier.
pub open spec fn canonical_spec(name: Seq<char>) -> Seq<char> {
    lookup_alias(IDENT_ALIASES@, name)
}

/// Canonicalise an identifier (used by the parser on every identifier).
pub fn canonical(name: &str) -> (r: String)
    ensures
        r@ == canonical_spec(name@),
{
    let table = IDENT_ALIASES;
    let mut i: usize = 0;
    proof {
        assert(table@.skip(0) =~= table@);
    }
    while i < 57
        invariant
            table@ == IDENT_ALIASES@,
            table@.len() == 57,
            i <= 57,
            canonical_spec(name@) == lookup_alias(table@.skip(i as int), name@),
        decreases 57 - i,
    {
        let (alias, canon) = table[i];
        proof {
            let rest = table@.skip(i as int);
            assert(rest[0] == table@[i as int]);
            assert(rest.drop_first() =~= table@.skip(i + 1));
        }
        if str_eq(alias, name) {
            return canon.to_owned();
        }
        i = i + 1;
    }
    proof {
        assert(table@.skip(57) =~= Seq::<(&str, &str)>::empty());
    }
    name.to_owned()
}

/// The Devanagari digit character for `d`.
pub open spec fn devanagari_digit_char(d: nat) -> char {
    (0x0966 + d) as char
}

/// One character of a printed number, with ASCII digits turned Devanagari.
pub open spec fn devanagari_char(c: char) -> char {
    if is_ascii_digit_char(c) {
        devanagari_digit_char(ascii_digit_value(c))
    } else {
        c
    }
}

/// Convert Arabic digits in a string to Devanagari (for default printing).
pub fn devanagari_digits(s: &str) -> (r: String)
    ensures
        r@ == s@.map_values(|c: char| devanagari_char(c)),
{
    let cs = chars_of(s);
    let mut out = String::new();
    let mut i: usize = 0;
    while i < cs.len()
        invariant
            cs@ == s@,
            i <= cs@.len(),
            out@ =~= cs@.take(i as int).map_values(|c: char| devanagari_char(c)),
        decreases cs.len() - i,
    {
        let c = cs[i];
        let d = if '0' <= c && c <= '9' {
            devanagari_of_ascii_digit(c)
        } else {
            c
        };
        push_char(&mut out, d);
        proof {
            assert(cs@.take(i + 1) =~= cs@.take(i as int).push(c));
        }
        i = i + 1;
    }
    proof {
        assert(cs@.take(i as int) =~= cs@);
    }
    out
}

/// The Devanagari digit with the same value as an ASCII digit.
fn devanagari_of_ascii_digit(c: char) -> (r: char)
    requires
        is_ascii_digit_char(c),
    ensures
        r == devanagari_char(c),
{
    match c {
        '0' => '०',
        '1' => '१',
        '2' => '२',
        '3' => '३',
        '4' => '४',
        '5' => '५',
        '6' => '६',
        '7' => '७',
        '8' => '८',
        _ => '९',
    }
}

/// The alias keys written in Devanagari.
pub open spec fn is_devanagari_alias_key(s: Seq<char>) -> bool {
    s == "योग"@ || s == "वियोग"@ || s == "गुणन"@ || s == "भाग"@ || s == "शेष"@ || s == "तुल्य"@ || s == "संयोग"@
}

/// An alias key is a Latin word or one of the Devanagari alias keys.
proof fn lemma_alias_key_shape(j: int)
    requires
        0 <= j < 57,
    ensures
        IDENT_ALIASES@[j].0@.len() > 0,
        ('a' <= IDENT_ALIASES@[j].0@[0] && IDENT_ALIASES@[j].0@[0] <= 'z') || is_devanagari_alias_key(IDENT_ALIASES@[j].0@),
{
    if j == 0 {
        reveal_strlit("true");

    } else if j == 1 {
        reveal_strlit("false");

    } else if j == 2 {
        reveal_strlit("unit");

    } else if j == 3 {
        reveal_strlit("cons");

    } else if j == 4 {
        reveal_strlit("nil");

    } else if j == 5 {
        reveal_strlit("none");

    } else if j == 6 {
        reveal_strlit("add");

    } else if j == 7 {
        reveal_strlit("योग");

    } else if j == 8 {
        reveal_strlit("sub");

    } else if j == 9 {
        reveal_strlit("वियोग");

    } else if j == 10 {
        reveal_strlit("mul");

    } else if j == 11 {
        reveal_strlit("गुणन");

    } else if j == 12 {
        reveal_strlit("div");

    } else if j == 13 {
        reveal_strlit("भाग");

    } else if j == 14 {
        reveal_strlit("mod");

    } else if j == 15 {
        reveal_strlit("शेष");

    } else if j == 16 {
        reveal_strlit("eq");

    } else if j == 17 {
        reveal_strlit("तुल्य");

    } else if j == 18 {
        reveal_strlit("ne");

    } else if j == 19 {
        reveal_strlit("lt");

    } else if j == 20 {
        reveal_strlit("le");

    } else if j == 21 {
        reveal_strlit("gt");

    } else if j == 22 {
        reveal_strlit("ge");

    } else if j == 23 {
        reveal_strlit("not");

    } else if j == 24 {
        reveal_strlit("and");

    } else if j == 25 {
        reveal_strlit("or");

    } else if j == 26 {
        reveal_strlit("concat");

    } else if j == 27 {
        reveal_strlit("संयोग");

    } else if j == 28 {
        reveal_strlit("len");

    } else if j == 29 {
        reveal_strlit("length");

    } else if j == 30 {
        reveal_strlit("to_str");

    } else if j == 31 {
        reveal_strlit("show");

    } else if j == 32 {
        reveal_strlit("substr");

    } else if j == 33 {
        reveal_strlit("chars");

    } else if j == 34 {
        reveal_strlit("map");

    } else if j == 35 {
        reveal_strlit("filter");

    } else if j == 36 {
        reveal_strlit("fold");

    } else if j == 37 {
        reveal_strlit("reverse");

    } else if j == 38 {
        reveal_strlit("append");

    } else if j == 39 {
        reveal_strlit("head");

    } else if j == 40 {
        reveal_strlit("tail");

    } else if j == 41 {
        reveal_strlit("member");

    } else if j == 42 {
        reveal_strlit("range");

    } else if j == 43 {
        reveal_strlit("sum");

    } else if j == 44 {
        reveal_strlit("pure");

    } else if j == 45 {
        reveal_strlit("return");

    } else if j == 46 {
        reveal_strlit("bind");

    } else if j == 47 {
        reveal_strlit("print");

    } else if j == 48 {
        reveal_strlit("println");

    } else if j == 49 {
        reveal_strlit("read");

    } else if j == 50 {
        reveal_strlit("read_line");

    } else if j == 51 {
        reveal_strlit("seq");

    } else if j == 52 {
        reveal_strlit("main");

    } else if j == 53 {
        reveal_strlit("error");

    } else if j == 54 {
        reveal_strlit("get");

    } else if j == 55 {
        reveal_strlit("insert");

    } else if j == 56 {
        reveal_strlit("emptymap");

    }
}

/// A canonical spelling is neither a Latin word nor a Devanagari alias key.
proof fn lemma_canonical_shape(k: int)
    requires
        0 <= k < 57,
    ensures
        IDENT_ALIASES@[k].1@.len() > 0,
        !('a' <= IDENT_ALIASES@[k].1@[0] && IDENT_ALIASES@[k].1@[0] <= 'z'),
        !is_devanagari_alias_key(IDENT_ALIASES@[k].1@),
{
    if k == 0 {
        reveal_strlit("सत्य");
        reveal_strlit("योग");
        reveal_strlit("वियोग");
        reveal_strlit("गुणन");
        reveal_strlit("भाग");
        reveal_strlit("शेष");
        reveal_strlit("तुल्य");
        reveal_strlit("संयोग");
        assert("सत्य"@[0] != "गुणन"@[0]);
    } else if k == 1 {
        reveal_strlit("असत्य");
        reveal_strlit("योग");
        reveal_strlit("वियोग");
        reveal_strlit("गुणन");
        reveal_strlit("भाग");
        reveal_strlit("शेष");
        reveal_strlit("तुल्य");
        reveal_strlit("संयोग");
        assert("असत्य"@[0] != "वियोग"@[0]);
        assert("असत्य"@[0] != "तुल्य"@[0]);
        assert("असत्य"@[0] != "संयोग"@[0]);
    } else if k == 2 {
        reveal_strlit("एकक");
        reveal_strlit("योग");
        reveal_strlit("वियोग");
        reveal_strlit("गुणन");
        reveal_strlit("भाग");
        reveal_strlit("शेष");
        reveal_strlit("तुल्य");
        reveal_strlit("संयोग");
        assert("एकक"@[0] != "योग"@[0]);
        assert("एकक"@[0] != "भाग"@[0]);
        assert("एकक"@[0] != "शेष"@[0]);
    } else if k == 3 {
        reveal_strlit("युग्म");
        reveal_strlit("योग");
        reveal_strlit("वियोग");
        reveal_strlit("गुणन");
        reveal_strlit("भाग");
        reveal_strlit("शेष");
        reveal_strlit("तुल्य");
        reveal_strlit("संयोग");
        assert("युग्म"@[0] != "वियोग"@[0]);
        assert("युग्म"@[0] != "तुल्य"@[0]);
        assert("युग्म"@[0] != "संयोग"@[0]);
    } else if k == 4 {
        reveal_strlit("रिक्त");
        reveal_strlit("योग");
        reveal_strlit("वियोग");
        reveal_strlit("गुणन");
        reveal_strlit("भाग");
        reveal_strlit("शेष");
        reveal_strlit("तुल्य");
        reveal_strlit("संयोग");
        assert("रिक्त"@[0] != "वियोग"@[0]);
        assert("रिक्त"@[0] != "तुल्य"@[0]);
        assert("रिक्त"@[0] != "संयोग"@[0]);
    } else if k == 5 {
        reveal_strlit("रिक्त");
        reveal_strlit("योग");
        reveal_strlit("वियोग");
        reveal_strlit("गुणन");
        reveal_strlit("भाग");
        reveal_strlit("शेष");
        reveal_strlit("तुल्य");
        reveal_strlit("संयोग");
        assert("रिक्त"@[0] != "वियोग"@[0]);
        assert("रिक्त"@[0] != "तुल्य"@[0]);
        assert("रिक्त"@[0] != "संयोग"@[0]);
    } else if k == 6 {
        reveal_strlit("+");
        reveal_strlit("योग");
        reveal_strlit("वियोग");
        reveal_strlit("गुणन");
        reveal_strlit("भाग");
        reveal_strlit("शेष");
        reveal_strlit("तुल्य");
        reveal_strlit("संयोग");

    } else if k == 7 {
        reveal_strlit("+");
        reveal_strlit("योग");
        reveal_strlit("वियोग");
        reveal_strlit("गुणन");
        reveal_strlit("भाग");
        reveal_strlit("शेष");
        reveal_strlit("तुल्य");
        reveal_strlit("संयोग");

    } else if k == 8 {
        reveal_strlit("-");
        reveal_strlit("योग");
        reveal_strlit("वियोग");
        reveal_strlit("गुणन");
        reveal_strlit("भाग");
        reveal_strlit("शेष");
        reveal_strlit("तुल्य");
        reveal_strlit("संयोग");

    } else if k == 9 {
        reveal_strlit("-");
        reveal_strlit("योग");
        reveal_strlit("वियोग");
        reveal_strlit("गुणन");
        reveal_strlit("भाग");
        reveal_strlit("शेष");
        reveal_strlit("तुल्य");
        reveal_strlit("संयोग");

    } else if k == 10 {
        reveal_strlit("*");
        reveal_strlit("योग");
        reveal_strlit("वियोग");
        reveal_strlit("गुणन");
        reveal_strlit("भाग");
        reveal_strlit("शेष");
        reveal_strlit("तुल्य");
        reveal_strlit("संयोग");

    } else if k == 11 {
        reveal_strlit("*");
        reveal_strlit("योग");
        reveal_strlit("वियोग");
        reveal_strlit("गुणन");
        reveal_strlit("भाग");
        reveal_strlit("शेष");
        reveal_strlit("तुल्य");
        reveal_strlit("संयोग");

    } else if k == 12 {
        reveal_strlit("/");
        reveal_strlit("योग");
        reveal_strlit("वियोग");
        reveal_strlit("गुणन");
        reveal_strlit("भाग");
        reveal_strlit("शेष");
        reveal_strlit("तुल्य");
        reveal_strlit("संयोग");

    } else if k == 13 {
        reveal_strlit("/");
        reveal_strlit("योग");
        reveal_strlit("वियोग");
        reveal_strlit("गुणन");
        reveal_strlit("भाग");
        reveal_strlit("शेष");
        reveal_strlit("तुल्य");
        reveal_strlit("संयोग");

    } else if k == 14 {
        reveal_strlit("%");
        reveal_strlit("योग");
        reveal_strlit("वियोग");
        reveal_strlit("गुणन");
        reveal_strlit("भाग");
        reveal_strlit("शेष");
        reveal_strlit("तुल्य");
        reveal_strlit("संयोग");

    } else if k == 15 {
        reveal_strlit("%");
        reveal_strlit("योग");
        reveal_strlit("वियोग");
        reveal_strlit("गुणन");
        reveal_strlit("भाग");
        reveal_strlit("शेष");
        reveal_strlit("तुल्य");
        reveal_strlit("संयोग");

    } else if k == 16 {
        reveal_strlit("==");
        reveal_strlit("योग");
        reveal_strlit("वियोग");
        reveal_strlit("गुणन");
        reveal_strlit("भाग");
        reveal_strlit("शेष");
        reveal_strlit("तुल्य");
        reveal_strlit("संयोग");

    } else if k == 17 {
        reveal_strlit("==");
        reveal_strlit("योग");
        reveal_strlit("वियोग");
        reveal_strlit("गुणन");
        reveal_strlit("भाग");
        reveal_strlit("शेष");
        reveal_strlit("तुल्य");
        reveal_strlit("संयोग");

    } else if k == 18 {
        reveal_strlit("!=");
        reveal_strlit("योग");
        reveal_strlit("वियोग");
        reveal_strlit("गुणन");
        reveal_strlit("भाग");
        reveal_strlit("शेष");
        reveal_strlit("तुल्य");
        reveal_strlit("संयोग");

    } else if k == 19 {
        reveal_strlit("<");
        reveal_strlit("योग");
        reveal_strlit("वियोग");
        reveal_strlit("गुणन");
        reveal_strlit("भाग");
        reveal_strlit("शेष");
        reveal_strlit("तुल्य");
        reveal_strlit("संयोग");

    } else if k == 20 {
        reveal_strlit("<=");
        reveal_strlit("योग");
        reveal_strlit("वियोग");
        reveal_strlit("गुणन");
        reveal_strlit("भाग");
        reveal_strlit("शेष");
        reveal_strlit("तुल्य");
        reveal_strlit("संयोग");

    } else if k == 21 {
        reveal_strlit(">");
        reveal_strlit("योग");
        reveal_strlit("वियोग");
        reveal_strlit("गुणन");
        reveal_strlit("भाग");
        reveal_strlit("शेष");
        reveal_strlit("तुल्य");
        reveal_strlit("संयोग");

    } else if k == 22 {
        reveal_strlit(">=");
        reveal_strlit("योग");
        reveal_strlit("वियोग");
        reveal_strlit("गुणन");
        reveal_strlit("भाग");
        reveal_strlit("शेष");
        reveal_strlit("तुल्य");
        reveal_strlit("संयोग");

    } else if k == 23 {
        reveal_strlit("न");
        reveal_strlit("योग");
        reveal_strlit("वियोग");
        reveal_strlit("गुणन");
        reveal_strlit("भाग");
        reveal_strlit("शेष");
        reveal_strlit("तुल्य");
        reveal_strlit("संयोग");

    } else if k == 24 {
        reveal_strlit("च");
        reveal_strlit("योग");
        reveal_strlit("वियोग");
        reveal_strlit("गुणन");
        reveal_strlit("भाग");
        reveal_strlit("शेष");
        reveal_strlit("तुल्य");
        reveal_strlit("संयोग");

    } else if k == 25 {
        reveal_strlit("वा");
        reveal_strlit("योग");
        reveal_strlit("वियोग");
        reveal_strlit("गुणन");
        reveal_strlit("भाग");
        reveal_strlit("शेष");
        reveal_strlit("तुल्य");
        reveal_strlit("संयोग");

    } else if k == 26 {
        reveal_strlit("++");
        reveal_strlit("योग");
        reveal_strlit("वियोग");
        reveal_strlit("गुणन");
        reveal_strlit("भाग");
        reveal_strlit("शेष");
        reveal_strlit("तुल्य");
        reveal_strlit("संयोग");

    } else if k == 27 {
        reveal_strlit("++");
        reveal_strlit("योग");
        reveal_strlit("वियोग");
        reveal_strlit("गुणन");
        reveal_strlit("भाग");
        reveal_strlit("शेष");
        reveal_strlit("तुल्य");
        reveal_strlit("संयोग");

    } else if k == 28 {
        reveal_strlit("दीर्घ");
        reveal_strlit("योग");
        reveal_strlit("वियोग");
        reveal_strlit("गुणन");
        reveal_strlit("भाग");
        reveal_strlit("शेष");
        reveal_strlit("तुल्य");
        reveal_strlit("संयोग");
        assert("दीर्घ"@[0] != "वियोग"@[0]);
        assert("दीर्घ"@[0] != "तुल्य"@[0]);
        assert("दीर्घ"@[0] != "संयोग"@[0]);
    } else if k == 29 {
        reveal_strlit("दीर्घ");
        reveal_strlit("योग");
        reveal_strlit("वियोग");
        reveal_strlit("गुणन");
        reveal_strlit("भाग");
        reveal_strlit("शेष");
        reveal_strlit("तुल्य");
        reveal_strlit("संयोग");
        assert("दीर्घ"@[0] != "वियोग"@[0]);
        assert("दीर्घ"@[0] != "तुल्य"@[0]);
        assert("दीर्घ"@[0] != "संयोग"@[0]);
    } else if k == 30 {
        reveal_strlit("रूप");
        reveal_strlit("योग");
        reveal_strlit("वियोग");
        reveal_strlit("गुणन");
        reveal_strlit("भाग");
        reveal_strlit("शेष");
        reveal_strlit("तुल्य");
        reveal_strlit("संयोग");
        assert("रूप"@[0] != "योग"@[0]);
        assert("रूप"@[0] != "भाग"@[0]);
        assert("रूप"@[0] != "शेष"@[0]);
    } else if k == 31 {
        reveal_strlit("रूप");
        reveal_strlit("योग");
        reveal_strlit("वियोग");
        reveal_strlit("गुणन");
        reveal_strlit("भाग");
        reveal_strlit("शेष");
        reveal_strlit("तुल्य");
        reveal_strlit("संयोग");
        assert("रूप"@[0] != "योग"@[0]);
        assert("रूप"@[0] != "भाग"@[0]);
        assert("रूप"@[0] != "शेष"@[0]);
    } else if k == 32 {
        reveal_strlit("अंश");
        reveal_strlit("योग");
        reveal_strlit("वियोग");
        reveal_strlit("गुणन");
        reveal_strlit("भाग");
        reveal_strlit("शेष");
        reveal_strlit("तुल्य");
        reveal_strlit("संयोग");
        assert("अंश"@[0] != "योग"@[0]);
        assert("अंश"@[0] != "भाग"@[0]);
        assert("अंश"@[0] != "शेष"@[0]);
    } else if k == 33 {
        reveal_strlit("अक्षर");
        reveal_strlit("योग");
        reveal_strlit("वियोग");
        reveal_strlit("गुणन");
        reveal_strlit("भाग");
        reveal_strlit("शेष");
        reveal_strlit("तुल्य");
        reveal_strlit("संयोग");
        assert("अक्षर"@[0] != "वियोग"@[0]);
        assert("अक्षर"@[0] != "तुल्य"@[0]);
        assert("अक्षर"@[0] != "संयोग"@[0]);
    } else if k == 34 {
        reveal_strlit("प्रति");
        reveal_strlit("योग");
        reveal_strlit("वियोग");
        reveal_strlit("गुणन");
        reveal_strlit("भाग");
        reveal_strlit("शेष");
        reveal_strlit("तुल्य");
        reveal_strlit("संयोग");
        assert("प्रति"@[0] != "वियोग"@[0]);
        assert("प्रति"@[0] != "तुल्य"@[0]);
        assert("प्रति"@[0] != "संयोग"@[0]);
    } else if k == 35 {
        reveal_strlit("छन्न");
        reveal_strlit("योग");
        reveal_strlit("वियोग");
        reveal_strlit("गुणन");
        reveal_strlit("भाग");
        reveal_strlit("शेष");
        reveal_strlit("तुल्य");
        reveal_strlit("संयोग");
        assert("छन्न"@[0] != "गुणन"@[0]);
    } else if k == 36 {
        reveal_strlit("संहार");
        reveal_strlit("योग");
        reveal_strlit("वियोग");
        reveal_strlit("गुणन");
        reveal_strlit("भाग");
        reveal_strlit("शेष");
        reveal_strlit("तुल्य");
        reveal_strlit("संयोग");
        assert("संहार"@[0] != "वियोग"@[0]);
        assert("संहार"@[0] != "तुल्य"@[0]);
        assert("संहार"@[2] != "संयोग"@[2]);
    } else if k == 37 {
        reveal_strlit("विपर्यय");
        reveal_strlit("योग");
        reveal_strlit("वियोग");
        reveal_strlit("गुणन");
        reveal_strlit("भाग");
        reveal_strlit("शेष");
        reveal_strlit("तुल्य");
        reveal_strlit("संयोग");

    } else if k == 38 {
        reveal_strlit("योजन");
        reveal_strlit("योग");
        reveal_strlit("वियोग");
        reveal_strlit("गुणन");
        reveal_strlit("भाग");
        reveal_strlit("शेष");
        reveal_strlit("तुल्य");
        reveal_strlit("संयोग");
        assert("योजन"@[0] != "गुणन"@[0]);
    } else if k == 39 {
        reveal_strlit("शीर्ष");
        reveal_strlit("योग");
        reveal_strlit("वियोग");
        reveal_strlit("गुणन");
        reveal_strlit("भाग");
        reveal_strlit("शेष");
        reveal_strlit("तुल्य");
        reveal_strlit("संयोग");
        assert("शीर्ष"@[0] != "वियोग"@[0]);
        assert("शीर्ष"@[0] != "तुल्य"@[0]);
        assert("शीर्ष"@[0] != "संयोग"@[0]);
    } else if k == 40 {
        reveal_strlit("पुच्छ");
        reveal_strlit("योग");
        reveal_strlit("वियोग");
        reveal_strlit("गुणन");
        reveal_strlit("भाग");
        reveal_strlit("शेष");
        reveal_strlit("तुल्य");
        reveal_strlit("संयोग");
        assert("पुच्छ"@[0] != "वियोग"@[0]);
        assert("पुच्छ"@[0] != "तुल्य"@[0]);
        assert("पुच्छ"@[0] != "संयोग"@[0]);
    } else if k == 41 {
        reveal_strlit("सदस्य");
        reveal_strlit("योग");
        reveal_strlit("वियोग");
        reveal_strlit("गुणन");
        reveal_strlit("भाग");
        reveal_strlit("शेष");
        reveal_strlit("तुल्य");
        reveal_strlit("संयोग");
        assert("सदस्य"@[0] != "वियोग"@[0]);
        assert("सदस्य"@[0] != "तुल्य"@[0]);
        assert("सदस्य"@[1] != "संयोग"@[1]);
    } else if k == 42 {
        reveal_strlit("श्रेणी");
        reveal_strlit("योग");
        reveal_strlit("वियोग");
        reveal_strlit("गुणन");
        reveal_strlit("भाग");
        reveal_strlit("शेष");
        reveal_strlit("तुल्य");
        reveal_strlit("संयोग");

    } else if k == 43 {
        reveal_strlit("समष्टि");
        reveal_strlit("योग");
        reveal_strlit("वियोग");
        reveal_strlit("गुणन");
        reveal_strlit("भाग");
        reveal_strlit("शेष");
        reveal_strlit("तुल्य");
        reveal_strlit("संयोग");

    } else if k == 44 {
        reveal_strlit("शुद्ध");
        reveal_strlit("योग");
        reveal_strlit("वियोग");
        reveal_strlit("गुणन");
        reveal_strlit("भाग");
        reveal_strlit("शेष");
        reveal_strlit("तुल्य");
        reveal_strlit("संयोग");
        assert("शुद्ध"@[0] != "वियोग"@[0]);
        assert("शुद्ध"@[0] != "तुल्य"@[0]);
        assert("शुद्ध"@[0] != "संयोग"@[0]);
    } else if k == 45 {
        reveal_strlit("शुद्ध");
        reveal_strlit("योग");
        reveal_strlit("वियोग");
        reveal_strlit("गुणन");
        reveal_strlit("भाग");
        reveal_strlit("शेष");
        reveal_strlit("तुल्य");
        reveal_strlit("संयोग");
        assert("शुद्ध"@[0] != "वियोग"@[0]);
        assert("शुद्ध"@[0] != "तुल्य"@[0]);
        assert("शुद्ध"@[0] != "संयोग"@[0]);
    } else if k == 46 {
        reveal_strlit("बन्ध");
        reveal_strlit("योग");
        reveal_strlit("वियोग");
        reveal_strlit("गुणन");
        reveal_strlit("भाग");
        reveal_strlit("शेष");
        reveal_strlit("तुल्य");
        reveal_strlit("संयोग");
        assert("बन्ध"@[0] != "गुणन"@[0]);
    } else if k == 47 {
        reveal_strlit("मुद्रण");
        reveal_strlit("योग");
        reveal_strlit("वियोग");
        reveal_strlit("गुणन");
        reveal_strlit("भाग");
        reveal_strlit("शेष");
        reveal_strlit("तुल्य");
        reveal_strlit("संयोग");

    } else if k == 48 {
        reveal_strlit("मुद्रण");
        reveal_strlit("योग");
        reveal_strlit("वियोग");
        reveal_strlit("गुणन");
        reveal_strlit("भाग");
        reveal_strlit("शेष");
        reveal_strlit("तुल्य");
        reveal_strlit("संयोग");

    } else if k == 49 {
        reveal_strlit("पठन");
        reveal_strlit("योग");
        reveal_strlit("वियोग");
        reveal_strlit("गुणन");
        reveal_strlit("भाग");
        reveal_strlit("शेष");
        reveal_strlit("तुल्य");
        reveal_strlit("संयोग");
        assert("पठन"@[0] != "योग"@[0]);
        assert("पठन"@[0] != "भाग"@[0]);
        assert("पठन"@[0] != "शेष"@[0]);
    } else if k == 50 {
        reveal_strlit("पठन");
        reveal_strlit("योग");
        reveal_strlit("वियोग");
        reveal_strlit("गुणन");
        reveal_strlit("भाग");
        reveal_strlit("शेष");
        reveal_strlit("तुल्य");
        reveal_strlit("संयोग");
        assert("पठन"@[0] != "योग"@[0]);
        assert("पठन"@[0] != "भाग"@[0]);
        assert("पठन"@[0] != "शेष"@[0]);
    } else if k == 51 {
        reveal_strlit("अनुक्रम");
        reveal_strlit("योग");
        reveal_strlit("वियोग");
        reveal_strlit("गुणन");
        reveal_strlit("भाग");
        reveal_strlit("शेष");
        reveal_strlit("तुल्य");
        reveal_strlit("संयोग");

    } else if k == 52 {
        reveal_strlit("मुख्य");
        reveal_strlit("योग");
        reveal_strlit("वियोग");
        reveal_strlit("गुणन");
        reveal_strlit("भाग");
        reveal_strlit("शेष");
        reveal_strlit("तुल्य");
        reveal_strlit("संयोग");
        assert("मुख्य"@[0] != "वियोग"@[0]);
        assert("मुख्य"@[0] != "तुल्य"@[0]);
        assert("मुख्य"@[0] != "संयोग"@[0]);
    } else if k == 53 {
        reveal_strlit("दोष");
        reveal_strlit("योग");
        reveal_strlit("वियोग");
        reveal_strlit("गुणन");
        reveal_strlit("भाग");
        reveal_strlit("शेष");
        reveal_strlit("तुल्य");
        reveal_strlit("संयोग");
        assert("दोष"@[0] != "योग"@[0]);
        assert("दोष"@[0] != "भाग"@[0]);
        assert("दोष"@[0] != "शेष"@[0]);
    } else if k == 54 {
        reveal_strlit("प्राप्ति");
        reveal_strlit("योग");
        reveal_strlit("वियोग");
        reveal_strlit("गुणन");
        reveal_strlit("भाग");
        reveal_strlit("शेष");
        reveal_strlit("तुल्य");
        reveal_strlit("संयोग");

    } else if k == 55 {
        reveal_strlit("समावेश");
        reveal_strlit("योग");
        reveal_strlit("वियोग");
        reveal_strlit("गुणन");
        reveal_strlit("भाग");
        reveal_strlit("शेष");
        reveal_strlit("तुल्य");
        reveal_strlit("संयोग");

    } else if k == 56 {
        reveal_strlit("रिक्तकोश");
        reveal_strlit("योग");
        reveal_strlit("वियोग");
        reveal_strlit("गुणन");
        reveal_strlit("भाग");
        reveal_strlit("शेष");
        reveal_strlit("तुल्य");
        reveal_strlit("संयोग");

    }
}

/// No canonical spelling is itself an alias key.
proof fn lemma_canonical_is_not_a_key(j: int, k: int)
    requires
        0 <= j < 57,
        0 <= k < 57,
    ensures
        IDENT_ALIASES@[j].0@ != IDENT_ALIASES@[k].1@,
{
    lemma_alias_key_shape(j);
    lemma_canonical_shape(k);
}

/// Looking a name up from position `i` on, where no key from there on is
/// that name, gives the name back.
proof fn lemma_lookup_misses(v: Seq<char>, i: int)
    requires
        0 <= i <= 57,
        forall|j: int| i <= j < 57 ==> (#[trigger] IDENT_ALIASES@[j]).0@ != v,
    ensures
        lookup_alias(IDENT_ALIASES@.skip(i), v) == v,
    decreases 57 - i,
{
    let t = IDENT_ALIASES@.skip(i);
    if i < 57 {
        assert(t[0] == IDENT_ALIASES@[i]);
        assert(t.drop_first() =~= IDENT_ALIASES@.skip(i + 1));
        lemma_lookup_misses(v, i + 1);
    } else {
        assert(t.len() == 0);
    }
}

/// Looking a name up from position `i` on gives either the name itself,
/// when no key from there on is that name, or the canonical spelling of
/// some entry.
proof fn lemma_lookup_result(name: Seq<char>, i: int)
    requires
        0 <= i <= 57,
    ensures
        (lookup_alias(IDENT_ALIASES@.skip(i), name) == name && forall|j: int|
            i <= j < 57 ==> (#[trigger] IDENT_ALIASES@[j]).0@ != name) || exists|k: int|
            0 <= k < 57 && lookup_alias(IDENT_ALIASES@.skip(i), name) == (#[trigger] IDENT_ALIASES@[k]).1@,
    decreases 57 - i,
{
    let t = IDENT_ALIASES@.skip(i);
    if i < 57 {
        assert(t[0] == IDENT_ALIASES@[i]);
        assert(t.drop_first() =~= IDENT_ALIASES@.skip(i + 1));
        lemma_lookup_result(name, i + 1);
    } else {
        assert(t.len() == 0);
    }
}

/// Canonicalising is idempotent: a canonical spelling is its own canonical
/// spelling, and a name that is no alias key is left as it is.
pub proof fn lemma_canonical_idempotent(name: Seq<char>)
    ensures
        canonical_spec(canonical_spec(name)) == canonical_spec(name),
        (forall|j: int| 0 <= j < 57 ==> (#[trigger] IDENT_ALIASES@[j]).0@ != name) ==> canonical_spec(name) == name,
{
    assert(IDENT_ALIASES@.skip(0) =~= IDENT_ALIASES@);
    if forall|j: int| 0 <= j < 57 ==> (#[trigger] IDENT_ALIASES@[j]).0@ != name {
        lemma_lookup_misses(name, 0);
    }
    lemma_lookup_result(name, 0);
    let c = canonical_spec(name);
    if exists|k: int| 0 <= k < 57 && c == (#[trigger] IDENT_ALIASES@[k]).1@ {
        let k = choose|k: int| 0 <= k < 57 && c == (#[trigger] IDENT_ALIASES@[k]).1@;
        assert forall|j: int| 0 <= j < 57 implies (#[trigger] IDENT_ALIASES@[j]).0@ != c by {
            lemma_canonical_is_not_a_key(j, k);
        }
        lemma_lookup_misses(c, 0);
    } else {
        lemma_lookup_misses(name, 0);
    }
}

} // verus!
