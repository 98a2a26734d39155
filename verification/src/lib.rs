//! Verified core of a SUMO/KIF reasoning engine.

pub mod atoms;
pub mod background;
pub mod canon;
pub mod changes;
pub mod classify;
pub mod classify_laws;
pub mod clause;
pub mod content;
pub mod docs;
pub mod events;
pub mod formula;
pub mod gf64;
pub mod hashing;
pub mod impact;
pub mod inferred;
pub mod inferred_laws;
pub mod kif;
pub mod lattice;
pub mod lattice_cache;
pub mod lift;
pub mod linear;
pub mod memo;
pub mod order;
pub mod query_cache;
pub mod render;
pub mod render_laws;
pub mod roles;
pub mod rows;
pub mod scale;
pub mod scan;
pub mod schema;
pub mod schema_apply;
pub mod schema_laws;
pub mod semantic;
pub mod shared;
pub mod signature;
pub mod signature_cache;
pub mod signature_laws;
pub mod small;
pub mod store;
pub mod strategy;
pub mod subst;
pub mod szs;
pub mod taxonomy;
pub mod temporal;
pub mod temporal_laws;
pub mod term;
pub mod term_arena;
pub mod terms;
pub mod text;
pub mod theory;
pub mod tokens;
pub mod types;
pub mod unify;
pub mod units;
pub mod vampire_proof;
pub mod verdicts;
pub mod walk;
