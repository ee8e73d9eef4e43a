# group_egraph

E-graphs whose edges carry group elements: an e-class may be known to equal
another one moved by a group element (an integer offset, a permutation of
slots, ...). The library is written in Verus; its contracts and laws are
checked by the verifier.

Layout of `src/`:

- `api` — the traits: `Group`, `Semilattice` (the self-edges of an e-class),
  `Analysis` (a language of e-nodes with its canonical forms), and the laws
  that the e-graph relies on.
- `uf` — the union-find with group-labelled edges; `egraph` — the hashcons,
  `add`, `union` and `rebuild` on top of it.
- `ematch`, `baseline_ematch` — patterns, matching that disregards group
  elements (skeletons) and matching through the unit element.
- `eqsat` — instantiating patterns and equality saturation.
- `offset`, `slotted` — two groups: wrapping integer offsets, and
  permutations of slots.
- `guf` — a small union-find over partially known elements, with facts per
  class.
- `proofs` — proof terms (reflexivity, symmetry, transitivity, congruence,
  rule application) and what they make of a term.
- `cases` — languages: arithmetic with offsets (`caviar_offset`, with its
  parser, printer, rewrite rules, the reading of benchmark expressions from
  JSON, and one step of the search for a value), a small offset language
  with offset-aware matching (`offset`), and partial slot maps (`slotted`).
- `symbol`, `decimal`, `assoc` — names, decimal printing, association lists.

`app/` holds the command-line driver and the parts that use floating point;
`tests/` the tests.

## Collections

Where a map would be the natural choice, the library keeps a `Vec` and
states the map it stands for:

- The hashcons is a `Vec` of entries searched in order. Its keys are
  e-nodes, enums of the library; vstd gives `HashMap` a specification only
  through `obeys_key_model` of the key type, which a derived `Hash`/`Eq` on
  such an enum does not establish, so lookups could not be proved.
- Substitutions are association lists (`assoc`), keyed by pattern-variable
  names (strings), for the same reason.
- The coefficients of a symbolic offset are a `Vec` sorted by variable. The
  solver takes the largest variable out first (`pop_last`), and vstd gives
  `BTreeMap` no specification of `pop_last` or of ordered removal.
- The JSON of benchmark files is read by `serde_json` into a value of the
  library (`JsonValue`), on which the reading of expressions is verified.
