# Sūtra core (verified)

The core of Sūtra, a term-rewriting language in the spirit of Pāṇini's
Aṣṭādhyāyī, written in Verus with its behaviour stated in contracts and proved.

`src/` — the verified library:

- `limbs`, `magnitude`, `bigint` — arbitrary-precision integers (sign and
  base-2³² magnitude) with exact `+ - * /` and `%`, decimal printing and parsing;
- `decimal`, `text` — digit spellings and character-level string helpers;
- `lexer` — source text to tokens, in Devanagari or Latin (keywords in
  both scripts map to one token), with or without comments;
- `parser` — the grammar: Pratt parsing of the infix operators, list, map
  and tuple literals, lambdas, `let`, `if`, field access, and the
  declarations (rules with guards, saṃjñās, sections, प्रयोग, imports, गण
  classes, क्रम systems, the śivasūtra inventory), desugared to core terms;
- `fmt` — the formatter: whitespace and indentation normalised, line
  breaks, comments and spellings kept, and the result refused unless it
  lexes to the same tokens;
- `names` — bilingual aliases and Devanagari numerals;
- `ast` — terms, rules, saṃjñās and programs, with their mathematical views;
- `pretty` — printing terms (list and tuple sugar, infix operators,
  Devanagari digits);
- `builtins` — the native operations: integer arithmetic, comparison,
  strings, lists and maps (floating-point work is handed back to the caller);
- `samjna` — structural membership in saṃjñās;
- `rewrite` — bindings, pattern matching (non-linear) and shadow-aware
  substitution;
- `krama` — sequence rewriting with classes, anchors and segment variables;
- `engine` — leftmost-outermost reduction with paratva, guards, β-reduction,
  strict builtins, sequence systems and call-by-need sharing through a heap
  of shared cells, within a fuel of steps;
- `effect` — what an action (`शुद्ध`, `मुद्रण`, `बन्ध`, file, argument,
  environment, time and random actions) asks the runtime to do, and how
  results come back as terms;
- `sivasutra` — the inventory and the classes its pratyāhāras name;
- `check` — the static checker (unbound variables, constructor arity,
  exhaustiveness, underivable pratyāhāras);
- `repl` — reading interactive input: when it is complete, when a blank
  line cancels it, whether it is a command, declarations or an expression,
  and the session's step from one input to the next;
- `stdlib` — the standard library's modules parsed and joined in order.

`tests/` exercises the library; `app/` is the command line (`run`, `eval`,
`check`, `fmt`, `repl`): file loading, the floating-point side of the
builtins and of literals, the effect runtime's I/O, displayable error types
and the checker's report.
