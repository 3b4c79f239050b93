//! The standard library: its modules, each Sūtra source under a name, are
//! parsed and joined in order into one program.
use crate::ast::{FloatLit, Program, ProgramV};
use crate::parser::{
    empty_program, literal_oracle, literal_reader_ok, parse_error_text, parse_program, parse_program_spec,
    ParseErrorV,
};
use crate::repl::{extended, fits_after, rules_fit};
use crate::text::push_str;
use vstd::prelude::*;

verus! {

/// The modules' names and sources, by view.
pub open spec fn modules_view(mods: Seq<(String, String)>) -> Seq<(Seq<char>, Seq<char>)> {
    mods.map_values(|m: (String, String)| (m.0@, m.1@))
}

/// How a module's parse error reads.
pub open spec fn module_error_text(name: Seq<char>, e: ParseErrorV) -> Seq<char> {
    "error in stdlib module '"@ + name + "': "@ + parse_error_text(e)
}

/// The modules from `i` on joined to `acc`: each parsed and added after
/// the ones before; the first that does not parse is named in the error.
pub open spec fn load_modules_from(
    mods: Seq<(Seq<char>, Seq<char>)>,
    i: int,
    acc: ProgramV,
    fl: spec_fn(Seq<char>) -> (u64, Seq<char>),
) -> Result<ProgramV, Seq<char>>
    decreases mods.len() - i,
{
    if i < 0 || i >= mods.len() {
        Ok(acc)
    } else {
        match parse_program_spec(mods[i].1, fl) {
            Err(e) => Err(module_error_text(mods[i].0, e)),
            Ok(p) => if fits_after(acc.rules.len(), p) {
                load_modules_from(mods, i + 1, extended(acc, p, acc.rules.len()), fl)
            } else {
                Err("too many rules in the standard library"@)
            },
        }
    }
}

/// All the modules, parsed and joined in order.
pub open spec fn load_modules_spec(mods: Seq<(Seq<char>, Seq<char>)>, fl: spec_fn(Seq<char>) -> (u64, Seq<char>)) -> Result<
    ProgramV,
    Seq<char>,
> {
    load_modules_from(mods, 0, empty_program(), fl)
}

/// Parse the standard library's modules and join them into one program.
/// Floating-point literals are read by `float`.
pub fn load_modules<F: Fn(String) -> FloatLit>(mods: &Vec<(String, String)>, float: &F) -> (r: Result<Program, String>)
    requires
        forall|i: int| 0 <= i < mods.len() ==> (#[trigger] mods@[i]).1@.len() < usize::MAX,
        literal_reader_ok(*float),
    ensures
        match r {
            Ok(p) => load_modules_spec(modules_view(mods@), literal_oracle(*float)) == Ok::<ProgramV, Seq<char>>(p@),
            Err(e) => load_modules_spec(modules_view(mods@), literal_oracle(*float)) == Err::<ProgramV, Seq<char>>(
                e@,
            ),
        },
{
    let ghost mv = modules_view(mods@);
    let ghost orc = literal_oracle(*float);
    let mut prog = Program::default();
    let mut i: usize = 0;
    proof {
        assert(prog@ == empty_program());
    }
    while i < mods.len()
        invariant
            i <= mods.len(),
            mv == modules_view(mods@),
            orc == literal_oracle(*float),
            literal_reader_ok(*float),
            forall|j: int| 0 <= j < mods.len() ==> (#[trigger] mods@[j]).1@.len() < usize::MAX,
            load_modules_from(mv, 0, empty_program(), orc) == load_modules_from(mv, i as int, prog@, orc),
        decreases mods.len() - i,
    {
        let (name, src) = &mods[i];
        proof {
            assert(mv[i as int] == (name@, src@));
        }
        match parse_program(src.as_str(), float) {
            Err(e) => {
                let mut msg = "error in stdlib module '".to_owned();
                push_str(&mut msg, name.as_str());
                push_str(&mut msg, "': ");
                let text = e.to_string();
                push_str(&mut msg, text.as_str());
                proof {
                    reveal_strlit("error in stdlib module '");
                    reveal_strlit("': ");
                    assert(msg@ =~= module_error_text(name@, e@));
                }
                return Err(msg);
            },
            Ok(p) => {
                let base = prog.rules.len();
                if !rules_fit(base, &p) {
                    return Err("too many rules in the standard library".to_owned());
                }
                let ghost pr = p.rules@;
                let ghost pv = p@;
                let ghost before = prog@;
                proof {
                    assert forall|k: int| 0 <= k < pr.len() implies base + (#[trigger] pr[k]).order <= usize::MAX by {
                        assert(p@.rules[k] == pr[k]@);
                    }
                }
                prog.extend(p);
                proof {
                    assert(prog@ == extended(before, pv, before.rules.len()));
                }
            },
        }
        i = i + 1;
    }
    Ok(prog)
}

} // verus!
