# vibe

The front end and the checking tables of the Vibelang compiler, as a
verified library, with a thin command around it.

`src/` is the library. Every function in it carries a contract that Verus
proves:

- `text`, `diag`: strings, decimal and hexadecimal rendering, spans and
  diagnostics, and their text and JSON forms.
- `lexer`: the token stream of a source file, with the one layout rule that
  decides which newlines survive.
- `parser`, `expr`, `decl`: the type, pattern, expression and declaration
  grammars, each written as a specification over the tokens; every reading
  method returns exactly what its grammar gives, or the diagnostic it names.
- `types`, `infer`, `cover`: the type checker's substitution, unification,
  instantiation, generalisation and pattern typing, and the exhaustiveness
  report, which splits the arms of a match by constructor so that arms
  cover a constructor together.
- `deps`, `edit`: the call graph `vibe deps` prints, and what `vibe patch`
  decides: show a node with its hash, or replace it when the hash is fresh
  and the file still reads as a module.
- `refine`: the solver questions and what their answers mean, the proof
  cache, the plan of a proving run, and the postconditions a function's
  tail positions show.
- `load`, `mangle`: the modules a module names and the file each maps to,
  what each module declares, the `ext c` symbols two modules disagree on,
  and the flattening of the loaded modules into one program, with every
  declared name written `Mod.name` and each qualified name that names
  nothing reported.
- `escape`: which functions may be released without the C calls they make.
- `total`: termination. A pure recursive function needs a measure, written
  after `%` or inferred from a parameter that drops at every call, and the
  measure must drop at every call inside its recursive group; an effectful
  function may diverge. Measures are linear forms kept in 64 bits.
- `own`, `codegen`, `view`, `patch`, `cli`: what a use of an
  owned value does to the ownership state, the variables a closure
  captures, the tables and renderings the later passes share, comments put back into a rendering by token, node
  addressing, and the command-line options.

`app/` reads the command line and the module files, and prints what the
library reports. `tests/` runs the library on concrete inputs.
