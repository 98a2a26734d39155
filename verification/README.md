# sigma_core

The verified core of a reasoner over large ontologies: the store of sentences,
the taxonomy and the signatures read off it, and the parts of a saturation
prover that decide what holds. Every public function of
`src/` states what it returns or changes, and Verus proves it; `app/` is the
ordinary Rust around it.

## Layout

- Sentences: `types`, `text`, `hashing`, `content`, `store`, `events`, `memo`,
  `shared`.
- Taxonomy and signatures: `roles`, `taxonomy`, `semantic`, `signature`,
  `signature_cache`, `query_cache`, `impact`, `docs`, `verdicts`, `changes`,
  `signature_laws`.
- Inferred classes and relations: `inferred`, `inferred_laws`, `classify`,
  `classify_laws`, `walk`, `lattice`, `lattice_cache`.
- Terms and clauses: `term`, `subst`, `unify`, `canon`, `clause`, `atoms`,
  `lift`, `terms`, `term_arena`, `order`, `small`.
- Search: `gf64`, `linear`, `rows`, `schema`, `schema_laws`, `schema_apply`,
  `units`, `background`, `temporal`, `temporal_laws`, `theory`, `strategy`,
  `scale`.
- Proofs and transcripts: `kif`, `render`, `render_laws`, `scan`, `tokens`,
  `formula`, `szs`, `vampire_proof`.

Public proof functions named `law_...` state what holds of several functions
together. `hashing`, `shared`, `small` and `text` hold the few items that are
believed about code outside the crate; their comments say what.

`tests/` runs the library on concrete values. `app/` reads the environment and
the clock, and carries the types that need derives of other crates.
