//! The parts of the saturation prover, on small terms and clauses.
use std::collections::HashMap;

use sigma_core::atoms::AtomTable;
use sigma_core::background::{Background, BgLit, ClauseRec};
use sigma_core::canon::{canonical_var, CanonVars};
use sigma_core::clause::{canonical_clause, PLit};
use sigma_core::rows::{compile_into, register_rows, term_row, PatternPlan, Reject, Row};
use sigma_core::scale::{
    classify, ProverStatus as S, ScaleAct, ScaleConfig, ScalePlanner, TerminationReason as TR, SECOND,
};
use sigma_core::schema::{SchemaHit, SchemaKind, SchemaTable};
use sigma_core::store::SyntacticLayer;
use sigma_core::strategy::{Strategy, Switches};
use sigma_core::temporal::{
    build_net, query, query_witness, Order, PointKey, TemporalFact, TemporalNet, TemporalRelIds,
};
use sigma_core::term::Term;
use sigma_core::terms::{bloom_bit_op, bloom_bit_symbol, op_bloom_key, KboOrdering, TermFactsTable};
use sigma_core::types::{Literal, OpKind, SentenceId, Symbol, SymbolId};
use sigma_core::unify::{apply, match_one_way, shift_slots, unify, Subst};
use sigma_core::units::{op_tag, Atom, AtomInfo, DemodIndex, UnitHit, UnitStores};

fn p(name: &str) -> SymbolId {
    Symbol::hash_name(name)
}

fn pt(name: &str) -> PointKey {
    PointKey::Point(Symbol::hash_name(name))
}

fn sym(name: &str) -> Term {
    Term::Sym(Symbol::new(name))
}

fn num(v: &str) -> Term {
    Term::Lit(Literal::Number(v.to_string()))
}

fn app(v: Vec<Term>) -> Term {
    Term::App(v)
}

fn var(s: u64) -> Term {
    Term::Var(s)
}

fn cfg(total_timeout: u32) -> ScaleConfig {
    ScaleConfig { factor: 2, max_disproofs: 4, max_time_runs: 4, min_budget: 64, total_timeout }
}

/// Tenths of a second.
fn tenths(n: u64) -> u64 {
    n * (SECOND / 10)
}

// Sizes, depths and filters of terms, worked out directly.

fn brute_size(t: &Term) -> u16 {
    match t {
        Term::App(e) => e.iter().map(brute_size).fold(0u16, u16::saturating_add),
        _ => 1,
    }
}

fn brute_depth(t: &Term) -> u8 {
    match t {
        Term::App(e) => 1 + e.iter().map(brute_depth).max().unwrap_or(0),
        _ => 0,
    }
}

fn brute_bloom(t: &Term) -> u64 {
    match t {
        Term::App(e) => e.iter().map(brute_bloom).fold(0, |a, b| a | b),
        Term::Sym(s) => bloom_bit_symbol(s.id()),
        Term::Op(op) => bloom_bit_op(op),
        _ => 0,
    }
}

fn brute_weight(t: &Term) -> u64 {
    match t {
        Term::App(e) => e.iter().map(brute_weight).sum(),
        _ => 1,
    }
}

fn fixtures() -> Vec<Term> {
    vec![
        app(vec![sym("f"), sym("a")]),
        app(vec![sym("f"), sym("a"), sym("b")]),
        app(vec![sym("g"), app(vec![sym("f"), sym("a")]), sym("c")]),
        app(vec![sym("h"), app(vec![sym("g"), app(vec![sym("f"), sym("a")]), sym("c")])]),
        app(vec![sym("MeasureFn"), num("3"), sym("Meter")]),
        app(vec![Term::Op(OpKind::Equal), app(vec![sym("f"), sym("a")]), sym("b")]),
    ]
}

/// Compiles the pattern and runs it against the candidate's row.
fn run_chain(pat: &Term, cand: &Term, nslots: usize) -> (Result<(), Reject>, Vec<Option<u64>>, PatternPlan) {
    let mut facts = TermFactsTable::new();
    let kbo = KboOrdering::new();
    let mut tab: HashMap<u64, Row> = HashMap::new();
    register_rows(&mut tab, &app(vec![sym("p"), cand.clone()]));
    let mut plan = PatternPlan::new();
    compile_into(&mut plan, pat, &mut facts, &kbo);
    let mut bind: Vec<Option<u64>> = vec![None; nslots];
    let mut trail: Vec<u32> = Vec::new();
    let r = plan.eval(&term_row(cand), &tab, &mut bind, &mut trail);
    (r, bind, plan)
}

#[test]
fn a_pattern_without_a_plain_head_rejects_nothing() {
    let cand = app(vec![sym("f"), sym("a")]);
    for pat in [app(vec![var(0), sym("a")]), app(vec![app(vec![sym("f")]), var(0)]), var(0), app(vec![])] {
        let (r, bind, plan) = run_chain(&pat, &cand, 1);
        assert_eq!(r, Ok(()));
        assert_eq!(bind, vec![None]);
        assert!(plan.root_fallback() && !plan.active());
    }
}

// Clauses of small formulas.

#[derive(Clone)]
enum Form {
    Word(String),
    List(Vec<Form>),
}

fn read_form(text: &str) -> Form {
    let spaced = text.replace('(', " ( ").replace(')', " ) ");
    let mut stack: Vec<Vec<Form>> = vec![Vec::new()];
    for w in spaced.split_whitespace() {
        if w == "(" {
            stack.push(Vec::new());
        } else if w == ")" {
            let done = stack.pop().unwrap();
            stack.last_mut().unwrap().push(Form::List(done));
        } else {
            stack.last_mut().unwrap().push(Form::Word(w.to_string()));
        }
    }
    stack.pop().unwrap().remove(0)
}

fn parts(f: &Form) -> (&str, &[Form]) {
    match f {
        Form::List(fs) => match &fs[0] {
            Form::Word(w) => (w.as_str(), &fs[1..]),
            _ => ("", &fs[1..]),
        },
        _ => ("", &[]),
    }
}

fn lift(f: &Form, vars: &mut Vec<String>) -> Term {
    match f {
        Form::Word(w) => {
            if w.starts_with('?') {
                let at = match vars.iter().position(|v| v == w) {
                    Some(at) => at,
                    None => {
                        vars.push(w.clone());
                        vars.len() - 1
                    }
                };
                return Term::Var(at as u64);
            }
            if w == "equal" {
                return Term::Op(OpKind::Equal);
            }
            sym(w)
        }
        Form::List(fs) => app(fs.iter().map(|x| lift(x, vars)).collect()),
    }
}

/// The clauses of a formula without existential quantifiers.
fn clauses(f: &Form, pos: bool, vars: &mut Vec<String>) -> Vec<Vec<PLit>> {
    let (head, args) = parts(f);
    let both = |a: Vec<Vec<PLit>>, b: Vec<Vec<PLit>>| -> Vec<Vec<PLit>> {
        let mut out = Vec::new();
        for x in &a {
            for y in &b {
                let mut c: Vec<PLit> = x.to_vec();
                c.extend(y.iter().cloned());
                out.push(c);
            }
        }
        out
    };
    match head {
        "not" => clauses(&args[0], !pos, vars),
        "forall" => clauses(&args[1], pos, vars),
        "=>" => {
            let a = clauses(&args[0], !pos, vars);
            let b = clauses(&args[1], pos, vars);
            if pos {
                both(a, b)
            } else {
                a.into_iter().chain(b).collect()
            }
        }
        "<=>" => {
            let there = Form::List(vec![Form::Word("=>".to_string()), args[0].clone(), args[1].clone()]);
            let back = Form::List(vec![Form::Word("=>".to_string()), args[1].clone(), args[0].clone()]);
            clauses(&Form::List(vec![Form::Word("and".to_string()), there, back]), pos, vars)
        }
        "and" => {
            let mut cs: Vec<Vec<Vec<PLit>>> = Vec::new();
            for x in args {
                cs.push(clauses(x, pos, vars));
            }
            if pos {
                cs.into_iter().flatten().collect()
            } else {
                cs.into_iter().fold(vec![Vec::new()], |acc, c| both(acc, c))
            }
        }
        _ => vec![vec![PLit { pos, term: lift(f, vars) }]],
    }
}

fn clauses_of(text: &str) -> Vec<Vec<PLit>> {
    let mut vars = Vec::new();
    let cs = clauses(&read_form(text), true, &mut vars);
    cs.iter().filter_map(|c| canonical_clause(c)).collect()
}

fn probe_kif(text: &str) -> Option<SchemaHit> {
    let cls = clauses_of(text);
    if cls.is_empty() {
        return None;
    }
    assert_eq!(cls.len(), 1, "fixture must clausify to one clause");
    let lits = cls[0].iter().map(|l| PLit { pos: l.pos, term: over_canonical(&l.term) }).collect();
    SchemaTable::build().probe(&lits, &CanonVars::new(16))
}

fn rel_name(hit: &SchemaHit) -> String {
    hit.rel.as_ref().expect("hit carries a relation").name().to_string()
}

fn over_canonical(t: &Term) -> Term {
    match t {
        Term::Var(v) => Term::Var(canonical_var(*v)),
        Term::App(ts) => app(ts.iter().map(over_canonical).collect()),
        other => other.clone(),
    }
}

fn has_var(t: &Term) -> bool {
    match t {
        Term::Var(_) => true,
        Term::App(ts) => ts.iter().any(has_var),
        _ => false,
    }
}

/// The atom of a term in slot form, interned in the table.
fn atom_of(table: &mut AtomTable, t: &Term) -> Atom {
    let term = over_canonical(t);
    let id = table.intern_atom(t).expect("an application");
    let info = AtomInfo { mask: 0, base_residue: 0, ground: !has_var(t) };
    Atom { id, term, info }
}

#[test]
fn point_order_transitive_and_strict() {
    let mut n = TemporalNet::new();
    n.add_lt(pt("a"), pt("b"));
    n.add_lt(pt("b"), pt("c"));
    assert!(n.entails(pt("a"), pt("c"), Order::Lt));
    assert!(n.entails(pt("a"), pt("c"), Order::Le));
    assert!(!n.entails(pt("c"), pt("a"), Order::Lt));
    assert!(n.consistent());
}

#[test]
fn le_chain_is_not_strict() {
    let mut n = TemporalNet::new();
    n.add_le(pt("a"), pt("b"));
    n.add_le(pt("b"), pt("c"));
    assert!(n.entails(pt("a"), pt("c"), Order::Le));
    assert!(!n.entails(pt("a"), pt("c"), Order::Lt));
}

#[test]
fn one_strict_edge_makes_path_strict() {
    let mut n = TemporalNet::new();
    n.add_le(pt("a"), pt("b"));
    n.add_lt(pt("b"), pt("c"));
    n.add_le(pt("c"), pt("d"));
    assert!(n.entails(pt("a"), pt("d"), Order::Lt));
}

#[test]
fn equality_merges_points() {
    let mut n = TemporalNet::new();
    n.add_eq(pt("a"), pt("b"));
    n.add_lt(pt("b"), pt("c"));
    assert!(n.entails(pt("a"), pt("c"), Order::Lt));
    assert!(n.entails(pt("a"), pt("b"), Order::Eq));
}

#[test]
fn strict_cycle_is_inconsistent() {
    let mut n = TemporalNet::new();
    n.add_lt(pt("a"), pt("b"));
    n.add_lt(pt("b"), pt("a"));
    assert!(!n.consistent());
}

#[test]
fn tqg37_earlier_orders_interior_points() {
    let (i1, i2) = (p("I1"), p("I2"));
    let mut n = TemporalNet::new();
    n.add_interval(i1);
    n.add_interval(i2);
    n.add_lt(PointKey::End(i1), PointKey::Begin(i2));
    n.add_le(PointKey::Begin(i1), pt("P1"));
    n.add_le(pt("P1"), PointKey::End(i1));
    n.add_le(PointKey::Begin(i2), pt("P2"));
    n.add_le(pt("P2"), PointKey::End(i2));
    assert!(n.entails(pt("P1"), pt("P2"), Order::Lt));
    assert!(!n.entails(pt("P2"), pt("P1"), Order::Lt));
    let mut m = n;
    m.add_lt(pt("P2"), pt("P1"));
    assert!(!m.consistent());
}

#[test]
fn tqg35_point_in_during_interval() {
    let (i1, i2) = (p("I1"), p("I2"));
    let mut n = TemporalNet::new();
    n.add_interval(i1);
    n.add_interval(i2);
    n.add_lt(PointKey::Begin(i2), PointKey::Begin(i1));
    n.add_lt(PointKey::End(i1), PointKey::End(i2));
    n.add_le(PointKey::Begin(i1), pt("P"));
    n.add_le(pt("P"), PointKey::End(i1));
    assert!(n.entails(PointKey::Begin(i2), pt("P"), Order::Le));
    assert!(n.entails(pt("P"), PointKey::End(i2), Order::Le));
}

#[test]
fn tqg36_shared_start_point() {
    let (i1, i2, k) = (p("I1"), p("I2"), p("K"));
    let mut n = TemporalNet::new();
    for iv in [i1, i2, k] { n.add_interval(iv); }
    n.add_eq(PointKey::Begin(i1), PointKey::Begin(k));
    n.add_lt(PointKey::End(i1), PointKey::End(k));
    n.add_eq(PointKey::Begin(i2), PointKey::Begin(k));
    n.add_lt(PointKey::End(i2), PointKey::End(k));
    assert!(n.entails(PointKey::Begin(i1), PointKey::Begin(i2), Order::Eq));
    assert!(n.entails(PointKey::Begin(i1), PointKey::End(i2), Order::Lt));
    assert!(n.entails(PointKey::Begin(i2), PointKey::End(i1), Order::Lt));
}

#[test]
fn demod_index_buckets_by_head_and_arity() {
    let mut idx = DemodIndex::new();
    assert!(idx.is_empty());
    let l = Term::App(vec![sym("sideKick"), Term::Var(0)]);
    idx.add(7, l.clone(), Term::Var(0));
    assert!(!idx.is_empty());
    let t = Term::App(vec![sym("sideKick"), sym("Clark")]);
    let hits = idx.candidates(&t).expect("head bucket must hit");
    assert_eq!(hits.len(), 1);
    assert_eq!(hits[0].clause, 7);
    assert_eq!(hits[0].nslots, 1);
    let other = Term::App(vec![sym("nemesis"), sym("Clark")]);
    assert!(idx.candidates(&other).is_none());
    let wide = Term::App(vec![sym("sideKick"), sym("a"), sym("b")]);
    assert!(idx.candidates(&wide).is_none());
    assert!(idx.candidates(&Term::Var(3)).is_none());
}

#[test]
fn demod_index_leaf_bucket_and_clear() {
    let mut idx = DemodIndex::new();
    idx.add(3, sym("aliasOf"), sym("real"));
    let hits = idx.candidates(&sym("aliasOf")).expect("leaf bucket must hit");
    assert_eq!(hits.len(), 1);
    assert_eq!(hits[0].clause, 3);
    assert!(idx.candidates(&sym("real")).is_none());
    idx.clear();
    assert!(idx.is_empty());
    assert!(idx.candidates(&sym("aliasOf")).is_none());
}

#[test]
fn demod_index_skips_unindexable_patterns() {
    let mut idx = DemodIndex::new();
    idx.add(1, Term::App(vec![Term::Var(0), sym("a")]), sym("b"));
    assert!(idx.is_empty());
}

#[test]
fn non_ground_demodulator_matches_instance_and_rewrites() {
    let mut idx = DemodIndex::new();
    idx.add(9, Term::App(vec![sym("sideKick"), Term::Var(0)]), Term::Var(0));

    let target = Term::App(vec![sym("sideKick"), sym("Clark")]);
    let d = &idx.candidates(&target).expect("bucket")[0];
    let mut s: Subst = vec![None; d.nslots as usize];
    assert!(match_one_way(&d.l, &target, &mut s));
    assert_eq!(apply(&d.r, &s), sym("Clark"));
    let open_target = Term::App(vec![sym("sideKick"), Term::Var(0)]);
    let off = 1u64;
    let l2 = shift_slots(&d.l, off);
    let mut s2: Subst = vec![None; (off + u64::from(d.nslots)) as usize + 1];
    assert!(match_one_way(&l2, &open_target, &mut s2));
    assert_eq!(apply(&shift_slots(&d.r, off), &s2), Term::Var(0));
}

#[test]
fn unify_basic_and_occurs_check() {
    let pat = Term::App(vec![sym("p"), Term::Var(0),
        Term::App(vec![sym("f"), Term::Var(1)])]);
    let tgt = Term::App(vec![sym("p"), sym("a"),
        Term::App(vec![sym("f"), sym("b")])]);
    let mut s: Subst = vec![None; 2];
    assert!(unify(&pat, &tgt, &mut s));
    assert_eq!(apply(&Term::Var(0), &s), sym("a"));
    assert_eq!(apply(&Term::Var(1), &s), sym("b"));
    let mut s2: Subst = vec![None; 1];
    let circular = Term::App(vec![sym("f"), Term::Var(0)]);
    assert!(!unify(&Term::Var(0), &circular, &mut s2));
    assert!(s2[0].is_none(), "failed unify leaves no bindings");
}

#[test]
fn match_is_one_way() {

    
    let pat = Term::App(vec![sym("p"), Term::Var(0)]);
    let tgt_ground = Term::App(vec![sym("p"), sym("a")]);
    let tgt_open   = Term::App(vec![sym("p"), Term::Var(9)]);

    let mut s: Subst = vec![None; 16];
    assert!(match_one_way(&pat, &tgt_ground, &mut s), "pattern var binds");
    let mut s2: Subst = vec![None; 16];
    assert!(match_one_way(&pat, &tgt_open, &mut s2),
        "pattern var binds a target var as an opaque term");
    let mut s3: Subst = vec![None; 16];
    assert!(!match_one_way(&tgt_ground, &tgt_open, &mut s3),
        "target variables are constants to the matcher");
}

#[test]
fn vandermonde_roundtrip_v1_to_v3() {
    for v in 1..=3usize {
        for salt in 0..8u64 {
            let anchor = format!("k{salt}");
            let mut pat = vec![sym("f")];
            let mut cand = vec![sym("f")];
            let mut want = Vec::new();
            for u in 0..v {
                pat.push(var(u as u64));
                let name = format!("c{}_{}", u, salt.wrapping_mul(0x9E37_79B9));
                want.push(Symbol::hash_name(&name));
                cand.push(sym(&name));
            }
            pat.push(sym(&anchor));
            cand.push(sym(&anchor));
            let (r, bind, plan) =
                run_chain(&app(pat), &app(cand), v);
            assert!(plan.active(), "anchored pattern is constraining");
            assert_eq!(r, Ok(()), "true instance must survive (v={v})");
            for (u, w) in want.iter().enumerate() {
                assert_eq!(bind[u], Some(*w), "decoded key at slot {u} (v={v})");
            }
        }
    }
}

#[test]
fn repeated_variable_collapse_same_node() {
    let pat = app(vec![sym("f"), var(0), var(0)]);
    let good = app(vec![sym("f"), sym("a"), sym("a")]);
    let bad = app(vec![sym("f"), sym("a"), sym("b")]);
    let (r, bind, plan) = run_chain(&pat, &good, 1);
    assert!(plan.active(), "collapse is constraining");
    assert_eq!(r, Ok(()));
    assert_eq!(bind[0], Some(Symbol::hash_name("a")));
    let (r, _, _) = run_chain(&pat, &bad, 1);
    assert!(r.is_err(), "f(a,b) must be rejected before any walk");
}

#[test]
fn repeated_variable_cross_level_binding() {
    let pat = app(vec![sym("f"), var(0), app(vec![sym("g"), var(0)])]);
    let good = app(vec![sym("f"), sym("a"), app(vec![sym("g"), sym("a")])]);
    let bad = app(vec![sym("f"), sym("a"), app(vec![sym("g"), sym("b")])]);
    let (r, bind, plan) = run_chain(&pat, &good, 1);
    assert!(plan.active());
    assert_eq!(r, Ok(()));
    assert_eq!(bind[0], Some(Symbol::hash_name("a")));
    let (r, _, _) = run_chain(&pat, &bad, 1);
    assert_eq!(
        r,
        Err(Reject::Binding),
        "f(a, g(b)) vs f(X, g(X)): the closed g-system must refute X's binding",
    );
}

#[test]
fn four_open_seats_fall_back() {
    let pat = app(vec![sym("f"), var(0), var(1), var(2), var(3)]);
    let cand = app(vec![sym("f"), sym("a"), sym("b"), sym("c"), sym("d")]);
    let (r, bind, plan) = run_chain(&pat, &cand, 4);
    assert!(plan.root_fallback(), "v = 4 must mark the root fallback");
    assert!(plan.fallback_any);
    assert!(!plan.active());
    assert_eq!(r, Ok(()), "fallback never rejects");
    assert!(bind.iter().all(Option::is_none), "fallback never binds");
}

#[test]
fn depth_two_ground_anchor_rejects() {
    let pat = app(vec![
        sym("f"),
        var(0),
        app(vec![sym("g"), var(0), sym("k")]),
    ]);
    let good = app(vec![
        sym("f"),
        sym("a"),
        app(vec![sym("g"), sym("a"), sym("k")]),
    ]);
    let bad = app(vec![
        sym("f"),
        sym("a"),
        app(vec![sym("g"), sym("a"), sym("m")]),
    ]);
    let (r, _, _) = run_chain(&pat, &good, 1);
    assert_eq!(r, Ok(()));
    let (r, _, _) = run_chain(&pat, &bad, 1);
    assert!(r.is_err(), "depth-2 anchor mismatch must reject");
}

#[test]
fn recognizes_symmetry_rule() {
    let hit = probe_kif("(=> (connectedTo ?A ?B) (connectedTo ?B ?A))").unwrap();
    assert_eq!(hit.kind, SchemaKind::Symmetry);
    assert_eq!(rel_name(&hit), "connectedTo");
}

#[test]
fn recognizes_transitivity_both_emission_orders() {
    for kif in [
        "(=> (and (above ?X ?Y) (above ?Y ?Z)) (above ?X ?Z))",
        "(=> (and (above ?Y ?Z) (above ?X ?Y)) (above ?X ?Z))",
    ] {
        let hit = probe_kif(kif).unwrap_or_else(|| panic!("no hit for {kif}"));
        assert_eq!(hit.kind, SchemaKind::Transitivity, "{kif}");
        assert_eq!(rel_name(&hit), "above");
    }
}

#[test]
fn recognizes_antisymmetry() {
    let hit = probe_kif(
        "(=> (and (covers ?X ?Y) (covers ?Y ?X)) (equal ?X ?Y))",
    ).unwrap();
    assert_eq!(hit.kind, SchemaKind::Antisymmetry);
    assert_eq!(rel_name(&hit), "covers");
}

#[test]
fn recognizes_irreflexivity() {
    let hit = probe_kif("(not (properPartX ?X ?X))").unwrap();
    assert_eq!(hit.kind, SchemaKind::Irreflexivity);
    assert_eq!(rel_name(&hit), "properPartX");
}

#[test]
fn recognizes_inverse_pair() {
    let hit = probe_kif("(=> (smallerThanX ?X ?Y) (largerThanX ?Y ?X))").unwrap();
    assert_eq!(hit.kind, SchemaKind::Inverse);
    assert_eq!(rel_name(&hit), "smallerThanX");
    assert_eq!(&*hit.rel2.as_ref().unwrap().name(), "largerThanX");
}

#[test]
fn recognizes_symmetry_metaschema() {
    let hit = probe_kif(
        "(=> (and (instance ?REL SymmetricRelation) (?REL ?I1 ?I2)) (?REL ?I2 ?I1))",
    ).unwrap();
    assert_eq!(hit.kind, SchemaKind::SymMetaschema);
    assert!(hit.rel.is_none());
}

#[test]
fn recognizes_real_merge_symmetry_metaschema() {
    let hit = probe_kif(
        "(=> (instance ?REL SymmetricRelation) \
             (forall (?INST1 ?INST2) \
                (=> (?REL ?INST1 ?INST2) (?REL ?INST2 ?INST1))))",
    ).unwrap();
    assert_eq!(hit.kind, SchemaKind::SymMetaschema);
}

#[test]
fn recognizes_transitivity_metaschema() {
    let hit = probe_kif(
        "(=> (and (instance ?REL TransitiveRelation) (?REL ?I1 ?I2) (?REL ?I2 ?I3)) \
             (?REL ?I1 ?I3))",
    ).unwrap();
    assert_eq!(hit.kind, SchemaKind::TransMetaschema);
}

#[test]
fn rejects_near_misses() {
    assert!(probe_kif(
        "(=> (and (instance ?X Human) (likes ?X ?Y)) (likes ?Y ?X))"
    ).is_none());
    assert!(probe_kif("(=> (relA ?X ?Y) (relB ?X ?Y))").is_none());
    assert!(probe_kif("(=> (relC ?X ?Y) (relC ?X ?Y))").is_none());
    assert!(probe_kif("(=> (relD ?X ?Y ?Z) (relD ?Y ?X ?Z))").is_none());
}

#[test]
fn bg_fingerprint_separates_make_shaping_knobs_only() {
    let base = Strategy::base();
    let mut search_only = base.clone();
    search_only.pick_ratio = 1;
    search_only.para_cap = 9999;
    search_only.liu_top_k = 128;
    assert_eq!(base.bg_fingerprint(), search_only.bg_fingerprint());

    let mut deeper = base.clone();
    deeper.max_depth = 7;
    assert_ne!(base.bg_fingerprint(), deeper.bg_fingerprint());

    let mut no_schema = base;
    no_schema.schema = false;
    assert_ne!(no_schema.bg_fingerprint(), Strategy::base().bg_fingerprint());
}

#[test]
fn default_portfolio_lanes_are_distinct() {
    let lanes = Strategy::default_portfolio();
    for (i, a) in lanes.iter().enumerate() {
        for b in &lanes[i + 1..] {
            assert_ne!(a, b, "{} duplicates {}", a.name, b.name);
        }
    }
}

#[test]
fn tptp_lanes_are_distinct_and_named() {
    let lanes = Strategy::tptp_lanes(&Switches::none());
    assert_eq!(lanes.len(), 6);
    for (i, a) in lanes.iter().enumerate() {
        assert!(!a.name.is_empty());
        for b in &lanes[i + 1..] {
            assert_ne!(a, b, "{} duplicates {}", a.name, b.name);
        }
    }
}

#[test]
fn tptp_lanes_keep_the_complete_calculus_on() {
    for s in Strategy::tptp_lanes(&Switches::none()) {
        assert!(s.full_saturation, "{}: full_saturation dropped", s.name);
        assert!(s.strict_saturation, "{}: strict_saturation dropped", s.name);
        assert!(s.superposition, "{}: superposition dropped", s.name);
        assert!(s.eq_factoring, "{}: eq_factoring dropped", s.name);
        assert!(s.subsumption, "{}: subsumption dropped", s.name);
    }
}

#[test]
fn tptp_lanes_first_is_plain_tptp() {
    assert_eq!(Strategy::tptp_lanes(&Switches::none())[0], Strategy::tptp(&Switches::none()));
}

#[test]
fn tptp_lanes_ordering_prefix_is_stable() {
    let lanes = Strategy::tptp_lanes(&Switches::none());
    let names: Vec<&str> = lanes.iter().map(|s| s.name.as_str()).collect();
    assert_eq!(
        names,
        vec![
            "tptp-complete",
            "tptp-demod",
            "tptp-goaldist",
            "tptp-deferred",
            "tptp-litselect",
            "tptp-precseed",
        ]
    );
}

#[test]
fn classify_maps_verdicts_to_actions() {
    assert_eq!(classify(S::Proved, None),                 ScaleAct::Done);
    assert_eq!(classify(S::Inconsistent, None),           ScaleAct::Done);
    assert_eq!(classify(S::InputError, None),             ScaleAct::Done);
    assert_eq!(classify(S::Disproved, Some(TR::Saturation)), ScaleAct::Widen);
    assert_eq!(classify(S::Timeout, Some(TR::TimeLimit)), ScaleAct::Narrow);
    assert_eq!(classify(S::Unknown, Some(TR::Saturation)),ScaleAct::Widen);
    assert_eq!(classify(S::Unknown, Some(TR::GaveUp)),    ScaleAct::Widen);
    assert_eq!(classify(S::Unknown, Some(TR::ResourceOut)),ScaleAct::Narrow);
    assert_eq!(classify(S::Unknown, None),                ScaleAct::Done);
}

#[test]
fn widen_doubles_until_ceiling() {
    let mut p = ScalePlanner::new(100, cfg(0));
    assert_eq!(p.budget(), 100);
    assert!(p.step(ScaleAct::Widen, false, false, 0));
    assert_eq!(p.budget(), 200);
    assert!(p.step(ScaleAct::Widen, false, false, 0));
    assert_eq!(p.budget(), 400);
    assert!(!p.step(ScaleAct::Widen, true, false, 0));
}

#[test]
fn widen_gives_up_after_max_disproofs() {
    let mut p = ScalePlanner::new(100, cfg(0));
    assert!(p.step(ScaleAct::Widen, false, false, 0));
    assert!(p.step(ScaleAct::Widen, false, false, 0));
    assert!(p.step(ScaleAct::Widen, false, false, 0));
    assert!(!p.step(ScaleAct::Widen, false, false, 0));
}

#[test]
fn narrow_halves_to_min_budget() {
    let mut p = ScalePlanner::new(256, cfg(0));
    assert!(p.step(ScaleAct::Narrow, false, false, 0));
    assert_eq!(p.budget(), 128);
    assert!(p.step(ScaleAct::Narrow, false, false, 0));
    assert_eq!(p.budget(), 64);
    assert!(!p.step(ScaleAct::Narrow, false, false, 0));
}

#[test]
fn narrow_stops_at_strict_floor() {
    let mut p = ScalePlanner::new(1000, cfg(0));
    assert!(p.step(ScaleAct::Narrow, false, false, 0));
    assert_eq!(p.budget(), 500);
    assert!(!p.step(ScaleAct::Narrow, false, true, 0));
}

#[test]
fn widen_then_narrow_brackets_and_bisects() {
    let mut p = ScalePlanner::new(1000, cfg(0));
    assert!(p.step(ScaleAct::Widen, false, false, 0));
    assert_eq!(p.budget(), 2000);
    assert!(p.step(ScaleAct::Narrow, false, false, 0));
    assert_eq!(p.budget(), 1500);
    assert!(p.step(ScaleAct::Widen, false, false, 0));
    assert_eq!(p.budget(), 1750);
}

#[test]
fn narrow_consumes_time_runs_budget() {
    let mut p = ScalePlanner::new(4096, cfg(40));
    assert_eq!(p.slice(), 10);
    assert!(p.step(ScaleAct::Narrow, false, false, 10 * SECOND));
    assert_eq!(p.slice(), 10);
    assert!(p.step(ScaleAct::Narrow, false, false, 10 * SECOND));
    assert!(p.step(ScaleAct::Narrow, false, false, 10 * SECOND));
    assert!(!p.step(ScaleAct::Narrow, false, false, 10 * SECOND));
}

#[test]
fn fast_widens_donate_time_forward() {
    let mut p = ScalePlanner::new(100, cfg(40));
    assert_eq!(p.slice(), 10);
    assert!(p.step(ScaleAct::Widen, false, false, 0));
    assert_eq!(p.slice(), 10);
}

#[test]
fn time_exhaustion_stops_widen() {
    let mut p = ScalePlanner::new(100, cfg(10));
    assert!(!p.step(ScaleAct::Widen, false, false, 10 * SECOND));
}

#[test]
fn fractional_elapsed_is_not_truncated() {
    let mut p = ScalePlanner::new(1000, cfg(10));
    assert!(p.step(ScaleAct::Narrow, false, false, tenths(26)));
    assert!(p.step(ScaleAct::Narrow, false, false, tenths(26)));
    assert!(p.step(ScaleAct::Narrow, false, false, tenths(26)));
    assert!(!p.step(ScaleAct::Narrow, false, false, tenths(26)));
    assert!(p.deadline_exceeded());
}

#[test]
fn deadline_exceeded_is_checked_before_slice_underflows() {
    let mut p = ScalePlanner::new(100, cfg(5));
    assert!(!p.step(ScaleAct::Widen, false, false, tenths(55)));
    assert!(p.deadline_exceeded());
    assert_eq!(p.slice(), 0);
}

#[test]
fn slice_rounds_up_so_no_budget_is_dropped() {
    let p = ScalePlanner::new(1000, cfg(10));
    assert_eq!(p.slice(), 3);
}

#[test]
fn build_and_query_deep_meets_chain() {
    const N: usize = 50;
    let ids = TemporalRelIds::standard();
    let iv = |k: usize| p(&format!("I{k}"));
    let (pa, pz) = (p("Pa"), p("Pz"));
    let mut facts: Vec<TemporalFact> = Vec::new();
    for k in 1..N {
        facts.push(TemporalFact { rel: ids.meets, x: iv(k), y: iv(k + 1), sid: None });
    }
    facts.push(TemporalFact { rel: ids.temporal_part, x: pa, y: iv(1), sid: None });
    facts.push(TemporalFact { rel: ids.temporal_part, x: pz, y: iv(N), sid: None });
    let points = vec![pa, pz];
    let mut net = build_net(&ids, &facts, &points);
    assert!(query(&mut net, &ids, ids.before, pa, pz, &points));
    assert!(!query(&mut net, &ids, ids.before, pz, pa, &points));
    assert!(query(&mut net, &ids, ids.earlier, iv(1), iv(N), &points));
}

#[test]
fn temporal_part_witness_traces_the_shift_chain() {
    let ids = TemporalRelIds::standard();
    let (shift, s1, s2, s3, pc) = (p("Shift"), p("Seg1"), p("Seg2"), p("Seg3"), p("PhoneCheck"));
    let (sid_starts, sid_m12, sid_m23, sid_fin, sid_tp): (SentenceId, u64, u64, u64, u64) = (10, 11, 12, 13, 14);
    let facts = vec![
        TemporalFact { rel: ids.meets, x: s1, y: s2, sid: Some(sid_m12) },
        TemporalFact { rel: ids.meets, x: s2, y: s3, sid: Some(sid_m23) },
        TemporalFact { rel: ids.starts, x: s1, y: shift, sid: Some(sid_starts) },
        TemporalFact { rel: ids.finishes, x: s3, y: shift, sid: Some(sid_fin) },
        TemporalFact { rel: ids.temporal_part, x: pc, y: s2, sid: Some(sid_tp) },
    ];
    let points = vec![pc];
    let mut net = build_net(&ids, &facts, &points);
    assert!(query(&mut net, &ids, ids.temporal_part, pc, shift, &points));
    let w = query_witness(&mut net, &ids, ids.temporal_part, pc, shift, &points);
    for sid in [sid_tp, sid_starts, sid_m12, sid_m23, sid_fin] {
        assert!(w.contains(&sid), "missing witness sid {sid}; got {w:?}");
    }
}

#[test]
fn ptermfacts_walk_matches_direct_recompute_and_intern_key() {
    let mut table = TermFactsTable::new();
    let kbo = KboOrdering::new();
    let mut atoms = AtomTable::new();
    let syn = SyntacticLayer::new();
    for t in fixtures() {
        let (key, f) = table.ground_key_facts(&t, &kbo).expect("fixtures are ground");
        assert_eq!(f.size, brute_size(&t), "size for {t:?}");
        assert_eq!(f.depth, brute_depth(&t), "depth for {t:?}");
        assert_eq!(f.sym_bloom, brute_bloom(&t), "bloom for {t:?}");
        let id = atoms.intern_atom(&t).unwrap();
        assert_eq!(key, id, "content key must equal intern_atom id for {t:?}");
        assert_eq!(f.kbo_weight, brute_weight(&t), "weight for {t:?}");
        let by_id = table.facts_for_atom(id, &atoms, &syn, &kbo).expect("ground");
        assert_eq!(by_id, f, "by-id facts for {t:?}");
    }
}

#[test]
fn open_terms_are_never_keyed_or_memoized() {
    let mut table = TermFactsTable::new();
    let kbo = KboOrdering::new();
    let open = app(vec![sym("f"), Term::Var(0)]);
    assert!(table.ground_key_facts(&open, &kbo).is_none());
    assert!(table.ground_facts(&Term::Var(3), &kbo).is_none());
    let nested = app(vec![sym("g"), app(vec![sym("f"), Term::Var(1)]), sym("c")]);
    assert!(table.ground_key_facts(&nested, &kbo).is_none());
    assert_eq!(table.len(), 0, "no entry may be recorded for open probes");
}

#[test]
fn compound_subnodes_memoize_on_the_way_up() {
    let mut table = TermFactsTable::new();
    let kbo = KboOrdering::new();
    let inner = app(vec![sym("f"), sym("a")]);
    let outer = app(vec![sym("g"), inner.clone(), sym("c")]);
    let _ = table.ground_key_facts(&outer, &kbo);
    assert_eq!(table.len(), 2);
    let mut atoms = AtomTable::new();
    let inner_id = atoms.intern_atom(&inner).unwrap();
    assert!(table.get(inner_id).is_some(), "inner sub-node memoized under its own key");
}

#[test]
fn op_bloom_key_matches_units_op_tag() {
    for op in [
        OpKind::And,
        OpKind::Or,
        OpKind::Not,
        OpKind::Implies,
        OpKind::Iff,
        OpKind::Equal,
        OpKind::ForAll,
        OpKind::Exists,
    ] {
        assert_eq!(op_bloom_key(&op), u64::from(op_tag(&op)), "op {op:?}");
    }
}

#[test]
fn surplus_check_rejects_corrupted_rows() {
    let mut facts = TermFactsTable::new();
    let kbo = KboOrdering::new();
    let cand = app(vec![sym("f"), sym("a"), sym("b"), sym("k")]);
    let mut tab: HashMap<u64, Row> = HashMap::new();
    register_rows(&mut tab, &app(vec![sym("p"), cand.clone()]));
    let pat = app(vec![sym("f"), var(0), var(1), sym("k")]);
    let mut plan = PatternPlan::new();
    compile_into(&mut plan, &pat, &mut facts, &kbo);
    let mut bind: Vec<Option<u64>> = vec![None; 2];
    let mut trail: Vec<u32> = Vec::new();
    let row = term_row(&cand);
    let mut bad = row;
    bad[3] ^= 1;
    assert_eq!(plan.eval(&bad, &tab, &mut bind, &mut trail), Err(Reject::Surplus));
    for &s in &trail {
        bind[s as usize] = None;
    }
    trail.clear();
    assert_eq!(plan.eval(&row, &tab, &mut bind, &mut trail), Ok(()));
}

#[test]
fn unconstraining_pattern_is_trivial() {
    let mut facts = TermFactsTable::new();
    let kbo = KboOrdering::new();
    let pat = app(vec![sym("f"), var(0), var(1)]);
    let mut plan = PatternPlan::new();
    compile_into(&mut plan, &pat, &mut facts, &kbo);
    assert!(plan.trivial());
    assert!(!plan.active());
    assert!(!plan.fallback_any);
}

#[test]
fn probe_terms_agrees_with_sentence_probe_on_the_fixture_family() {
    let fixtures = [
        "(=> (connectedTo ?A ?B) (connectedTo ?B ?A))",
        "(=> (and (above ?X ?Y) (above ?Y ?Z)) (above ?X ?Z))",
        "(=> (and (above ?Y ?Z) (above ?X ?Y)) (above ?X ?Z))",
        "(=> (and (larger ?A ?B) (larger ?B ?A)) (equal ?A ?B))",
        "(=> (before ?A ?B) (not (before ?B ?A)))",
        "(not (properPart ?X ?X))",
        "(=> (husband ?H ?W) (wife ?W ?H))",
        "(=> (instance ?R SymmetricRelation) (=> (?R ?A ?B) (?R ?B ?A)))",
        "(=> (and (instance ?R TransitiveRelation) (?R ?X ?Y) (?R ?Y ?Z)) (?R ?X ?Z))",
        "(=> (and (equal ?A ?B) (parent ?A ?C)) (parent ?B ?C))",
        "(=> (parent ?A ?B) (ancestor ?A ?B))",
        "(instance dummy Entity)",
        "(=> (and (larger ?A ?B) (larger ?B ?C)) (equal ?A ?C))",
    ];
    let table = SchemaTable::build();
    let canon = CanonVars::new(16);
    for kif in fixtures {
        for c in clauses_of(kif) {
            let by_terms = table.probe_terms(&c);
            let named: Vec<PLit> = c.iter().map(|l| PLit { pos: l.pos, term: over_canonical(&l.term) }).collect();
            let by_sentence = table.probe(&named, &canon);
            match (&by_sentence, &by_terms) {
                (None, None) => {}
                (Some(a), Some(b)) => {
                    assert_eq!(a.kind, b.kind, "kind diverged for {kif}");
                    assert_eq!(a.rel.as_ref().map(|s| s.id()), b.rel.as_ref().map(|s| s.id()));
                    assert_eq!(a.rel2.as_ref().map(|s| s.id()), b.rel2.as_ref().map(|s| s.id()));
                }
                _ => panic!("probe divergence for {kif}"),
            }
        }
    }
}

#[test]
fn table_builds_all_patterns() {
    assert_eq!(SchemaTable::build().len(), 13);
}

#[test]
fn recognizes_eq_substitution_schemas() {
    let cls = clauses_of(
        "(=> (equal ?THING1 ?THING2) \
             (forall (?CLASS) \
                (<=> (instance ?THING1 ?CLASS) (instance ?THING2 ?CLASS))))",
    );
    assert_eq!(cls.len(), 2, "<=> must split into two clauses");
    let table = SchemaTable::build();
    for c in &cls {
        let hit = table.probe_terms(c).expect("eq-substitution clause must hit");
        assert_eq!(hit.kind, SchemaKind::EqSubstitution);
    }
    let hit = probe_kif("(=> (and (equal ?A1 ?A2) (property ?T ?A1)) (property ?T ?A2))").unwrap();
    assert_eq!(hit.kind, SchemaKind::EqSubstitution);
}

#[test]
fn unit_stores_subsume_and_refute() {
    let mut table = AtomTable::new();
    let canon = CanonVars::new(8);
    let atom = |t: &mut AtomTable, x: Vec<Term>| atom_of(t, &app(x));
    let lits = vec![
        (true, atom(&mut table, vec![sym("holdsDuring"), sym("t1"), sym("x")])),
        (true, atom(&mut table, vec![sym("p"), sym("a")])),
        (true, atom(&mut table, vec![sym("p"), var(0)])),
        (false, atom(&mut table, vec![sym("q"), sym("a")])),
        (true, atom(&mut table, vec![sym("q"), var(0)])),
    ];
    let mut units = UnitStores::new();
    for (i, (pos, a)) in lits.iter().enumerate() {
        units.add_unit(i as u32, *pos, a, 4, &canon);
    }
    let pa = &lits[1].1;
    assert!(matches!(units.check(true, pa, 0, &canon), Some(UnitHit::Subsumes(_))));
    assert!(matches!(units.check(false, pa, 0, &canon), Some(UnitHit::Refutes(_))));
    let qa = &lits[3].1;
    assert!(units.check(true, qa, 0, &canon).is_some());
}

#[test]
fn equality_units_register_both_orientations() {
    let mut table = AtomTable::new();
    let canon = CanonVars::new(8);
    let eq = atom_of(&mut table, &app(vec![Term::Op(OpKind::Equal), sym("c"), sym("d")]));
    let mut units = UnitStores::new();
    units.add_unit(7, true, &eq, 4, &canon);
    assert_eq!(units.equals.len(), 2, "both orientations present");
    assert_eq!(units.equals[0].1, units.equals[1].2);
    assert_eq!(units.equals[0].2, units.equals[1].1);
}

fn unit_clause(table: &mut AtomTable, root: SentenceId, t: &Term) -> ClauseRec {
    let atom = atom_of(table, t);
    let key = atom.id;
    ClauseRec { lits: vec![BgLit { pos: true, atom }], nvars: 0, activated: true, source: Some(root), key }
}

#[test]
fn retain_background_masks_excluded_roots() {
    let canon = CanonVars::new(8);
    let mut table = AtomTable::new();
    let facts = [app(vec![sym("p"), sym("A")]), app(vec![sym("q"), sym("B")])];
    let roots: Vec<SentenceId> = facts.iter().map(|t| table.intern_atom(t).unwrap()).collect();
    assert_eq!(roots.len(), 2);
    let mut bg = Background::new(&canon);
    for (root, t) in roots.iter().zip(&facts) {
        bg.add_background_root(*root, &canon);
        assert!(bg.load_clause(unit_clause(&mut table, *root, t), &canon).is_some());
    }
    let snap = bg.freeze(&canon);
    assert_eq!(snap.loaded_roots(), 2);

    let keep: std::collections::HashSet<SentenceId> = [roots[0]].into_iter().collect();
    let mut narrow = Background::from_snapshot(&snap, &canon);
    narrow.retain_background(&keep, &canon);
    assert!(narrow.ground_unit(true, roots[0]).is_some(), "kept root stays probeable");
    assert!(narrow.ground_unit(true, roots[1]).is_none(), "masked root must vanish");
    assert_eq!(narrow.clause_count(), 2, "the arena keeps its clauses");
    assert_eq!(narrow.entries().len(), 1);

    narrow.add_background_root(roots[1], &canon);
    assert!(narrow.load_clause(unit_clause(&mut table, roots[1], &facts[1]), &canon).is_some());
    assert!(narrow.ground_unit(true, roots[1]).is_some(), "reloaded root probeable");
    let refrozen = narrow.freeze(&canon);
    assert_eq!(refrozen.loaded_roots(), 2, "coverage is the union");
}

#[test]
fn sample_is_deterministic_and_seed_sensitive() {
    assert_eq!(Strategy::sample(42), Strategy::sample(42));
    let (a, b) = (Strategy::sample(42), Strategy::sample(43));
    assert_ne!(a, b);
}

#[test]
fn a_sample_is_named_after_its_seed() {
    for seed in [0, 42, 0xDEAD_BEEF, u64::MAX] {
        let s = Strategy::sample(seed);
        let (mark, digits) = s.name.split_at(4);
        assert_eq!(mark, "rnd-");
        assert!(digits.len() >= 8);
        let read = u64::from_str_radix(digits, 16).unwrap();
        assert_eq!(read, seed);
        assert_eq!(Strategy::sample(read), s);
    }
    assert_eq!(Strategy::sample(42).name, "rnd-0000002a");
    assert_ne!(Strategy::sample(1).name, Strategy::sample(2).name);
}

#[test]
fn tptp_lanes_no_deferred_env_reproduces_the_old_five_lane_schedule() {
    let sw = Switches { no_deferred_passive: true, ..Switches::none() };
    let lanes = Strategy::tptp_lanes(&sw);
    let names: Vec<&str> = lanes.iter().map(|s| s.name.as_str()).collect();
    assert_eq!(names, vec!["tptp-complete", "tptp-demod", "tptp-goaldist", "tptp-litselect", "tptp-precseed"]);
    assert!(lanes.iter().all(|l| !l.deferred_passive));
}

#[test]
fn tptp_deferred_lane_is_a_single_axis_delta_with_its_measured_cap() {
    let sw = Switches::none();
    let lane =
        Strategy::tptp_lanes(&sw).into_iter().find(|l| l.name == "tptp-deferred").expect("present by default");
    assert!(lane.deferred_passive);
    assert_eq!(lane.deferred_cap, 2_750_000);
    let neutralized =
        Strategy { deferred_passive: false, deferred_cap: Strategy::tptp(&sw).deferred_cap, ..lane }
            .named("tptp-complete");
    assert_eq!(neutralized, Strategy::tptp(&sw));
}

#[test]
fn an_off_switch_holds_in_every_lane() {
    let sw = Switches { no_bwd_demod: true, bwd_demod: true, ..Switches::none() };
    let lanes = Strategy::tptp_lanes(&sw);
    assert_eq!(lanes.len(), 6);
    assert!(lanes.iter().all(|l| !l.bwd_demod));
    assert!(lanes[1].demod, "the lane goes on rewriting forward");
    assert!(Strategy::tptp_lanes(&Switches::none()).iter().all(|l| l.bwd_demod));
    let sw = Switches { no_subs_join: true, subs_join: true, no_subterm_rows: true, ..Switches::none() };
    assert!(Strategy::tptp_lanes(&sw).iter().all(|l| !l.subs_join && !l.subterm_rows));
}

#[test]
fn every_stated_temporal_fact_is_answered_yes() {
    let ids = TemporalRelIds::standard();
    let (a, b, c, pa, pb) = (p("A"), p("B"), p("C"), p("Pa"), p("Pb"));
    let points = vec![pa, pb];
    let fact = |rel: SymbolId, x: SymbolId, y: SymbolId| TemporalFact { rel, x, y, sid: None };
    let facts = vec![
        fact(ids.before, pa, pb),
        fact(ids.earlier, a, b),
        fact(ids.meets, b, c),
        fact(ids.during, p("D"), a),
        fact(ids.starts, p("E"), a),
        fact(ids.finishes, p("F"), a),
        fact(ids.temporal_part, pa, c),
        fact(ids.temporal_part, p("G"), c),
    ];
    let mut net = build_net(&ids, &facts, &points);
    for f in &facts {
        assert!(query(&mut net, &ids, f.rel, f.x, f.y, &points), "{f:?}");
    }
    assert!(!query(&mut net, &ids, ids.meets, a, b, &points));
    assert!(!query(&mut net, &ids, p("likes"), a, b, &points));
}

#[test]
fn a_frozen_background_keeps_the_rules_and_terms_found() {
    let canon = CanonVars::new(8);
    let mut bg = Background::new(&canon);
    let hit = |kind: SchemaKind, rel: &str, rel2: Option<&str>| SchemaHit {
        kind,
        rel: Some(Symbol::new(rel)),
        rel2: rel2.map(Symbol::new),
    };
    assert!(bg.apply_schema_hit(&hit(SchemaKind::Symmetry, "near", None), Some(1), &canon));
    assert!(!bg.apply_schema_hit(&hit(SchemaKind::Antisymmetry, "covers", None), Some(2), &canon));
    bg.apply_schema_hit(&hit(SchemaKind::Antisymmetry, "covers", None), Some(3), &canon);
    bg.apply_schema_hit(&hit(SchemaKind::Irreflexivity, "before", None), None, &canon);
    bg.apply_schema_hit(&hit(SchemaKind::Inverse, "parent", Some("child")), Some(4), &canon);
    bg.keep_eq_term(7, sym("c"), &canon);
    let snap = bg.freeze(&canon);
    bg.keep_eq_term(7, sym("d"), &canon);
    let mut again = Background::from_snapshot(&snap, &canon);
    again.retain_background(&std::collections::HashSet::new(), &canon);
    let rules = again.schemas();
    assert_eq!(rules.symmetric(), &vec![(p("near"), Some(1))]);
    assert_eq!(rules.antisymmetric(p("covers")), Some(Some(2)), "the first sentence stays");
    assert_eq!(rules.antisymmetric(p("near")), None);
    assert_eq!(rules.irreflexive(p("before")), Some(None));
    assert_eq!(rules.inverse(), &vec![(p("parent"), p("child"), Some(4))]);
    assert_eq!((rules.mined_symmetric, rules.mined_transitive, rules.mined_other), (1, 0, 4));
    assert_eq!(again.eq_term(7), Some(&sym("c")));
    assert_eq!(again.eq_term(8), None);
    assert_eq!(bg.eq_term(7), Some(&sym("d")));
}

#[test]
fn derived_width_cap_mechanism_survives_without_a_lane() {
    let sw = Switches::none();
    let complete = Strategy::tptp(&sw);
    let wide = Strategy { derived_width_cap: Some(32), ..complete.clone() };
    assert_eq!(wide.derived_width_cap, Some(32));
    let reset = Strategy { derived_width_cap: None, ..wide };
    assert_eq!(reset, complete);
    assert!(Strategy::tptp_lanes(&sw).iter().all(|l| l.derived_width_cap.is_none()));
}
