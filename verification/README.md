# ltl_forge

Explicit-state LTL model checking on Petri nets, written in Verus: the library in `src/` is
verified, the command-line program in `app/` reads files and prints results.

## Library (`src/`)

- `ltl_parser`, `grammar`, `render`: the LTL syntax tree, a parser for formulas and for
  property files (its contract is a grammar over characters), and the text forms of formulas.
- `semantics`, `pnf`: LTL over infinite traces, and the positive normal form, proved to keep the
  meaning of a formula and to leave negations only in front of atoms; the automaton formula
  also rewrites every `F`, `G`, `W` and `M` by `U` and `R`.
- `closure`, `consistency`, `gnba`, `nba`, `nba_build`, `graph`: the closure of a formula, its
  consistent sets, the generalized Büchi automaton built from them, and the Büchi automaton that
  degeneralizes it and drops the states on no accepting run. `GNBA::try_new` and
  `NBA::try_new` refuse formulas whose automata would not fit in memory addresses, and
  `graph` finds components and useful states by forward and backward searches.
- `language`, `nba_language`, `net_language`: what the automata mean. The GNBA and the NBA
  built for a formula without path quantifiers or bare numbers, whose implications have a
  left operand that, once its negations are pushed inwards, is made of atoms, negated atoms,
  `&`, `|`, `X`, `F`, `U` and `M` (`language_exact`), accept exactly the traces that satisfy
  it; the NBA's satisfiability answer is `true` exactly when some trace
  satisfies the formula; a model-checking counterexample is a firing sequence on which the
  property fails, and, with finitely many reachable markings, a `true` answer means that the
  property holds on every infinite firing sequence.
- `ndfs`, `emptyness`, `product`: the nested depth-first search over a graph explored on the fly,
  proved to find an accepting cycle exactly when one is reachable; emptiness and satisfiability
  checks on automata; model checking on the product of a net with the automaton of the negated
  property.
- `petri_net`, `marking_label`, `explorer`, `counting`: markings, firing, the labels of markings,
  and the breadth-first count of reachable markings and deadlocks.
- `builder`, `xml`: building nets by name, and from PNML documents.
- `philosophers`: the dining philosophers, as a direct state search and as a Petri net.
- `memory_status`, `text`: reading the resident memory from a process status text; decimal text.

## Program (`app/`)

`app/main.rs` is the `LTLForge` command line: reachability, model checking, PNF, GNBA and NBA
output (HOA, DOT, PNG), satisfiability, and the dining philosophers.
