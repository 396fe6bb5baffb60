# wmt_core

A consistency engine for a person and a language model working on one
world-model. The model writes claims in a small typed first-order IR;
this library keeps the vocabulary and the claim trajectory, compiles
claims to SMT-LIB2 scripts and to plain English, and drives a solver
(run outside, fed back as text) through step machines that find:

* whether the active claims are consistent, a minimal conflict and the
  cheapest repair;
* every minimal conflict and every maximal coherent position (MARCO),
  with the argumentation reading derived from them;
* the minimal set of claims that forces a consequence;
* a defeasible reading where more specific defaults override general ones.

Layout:

* `src/` — the verified library (Verus). `ir`, `smt`, `english` are the
  IR and its two renderers; `world`, `ingest`, `symbols`, `symtab` the
  world-model; `vocab`, `meta`, `seeds` what it shows and the ready-made
  world-models; `answers` reads solver output; `analysis`, `lattice`,
  `argue`, `hitting`, `witness`, `defeasible` are the step machines and
  their pure parts; `engine` ties them together; `laws` states what holds
  across calls, and what the step machines find when the solver's
  answers agree with a monotone consistency oracle (minimal conflicts and
  witnesses, maximal coherent positions, every one of them once the map
  is exhausted, correction sets exactly the minimal hitting sets of the
  conflicts, the first repair in cheapest-first order).
* `app/` — the browser-facing layer: JSON in and out, `wasm_bindgen`.
* `tests/` — scenarios pumped against a solver stand-in, and exact-value
  tests of the renderers, scripts and prompts.
