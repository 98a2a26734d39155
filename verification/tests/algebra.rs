//! Fields, linear systems, hashes, arenas and stores on concrete values.
use std::collections::BTreeSet;

use sigma_core::atoms::AtomTable;
use sigma_core::canon::{canonical_var, CanonVars};
use sigma_core::clause::{canonical_clause, PLit};
use sigma_core::content::{app_content_key, literal_content_key};
use sigma_core::gf64;
use sigma_core::lift::slot_atom;
use sigma_core::linear::solve_plan;
use sigma_core::order::sort_dedup;
use sigma_core::rows::{blank_key, leaf_row, lit_key, node_tags, seat_elem, seat_powers, term_key, term_row};
use sigma_core::scale::{ProverStatus, ScaleAct, ScaleConfig, ScaleDriver, ScalePlanner, TerminationReason, Verdict, SECOND};
use sigma_core::schema::{verify, ArgK, HeadK, LitShape, SchemaHit, SchemaKind, SchemaTable};
use sigma_core::schema_apply::{PClause, SchemaRegistry};
use sigma_core::store::SyntacticLayer;
use sigma_core::strategy::{Strategy, Switches};
use sigma_core::temporal::{Order, PointKey, TemporalNet};
use sigma_core::term::Term;
use sigma_core::term_arena::{TermArena, F_HAS_VAR, F_SPILL, TAG_APP, TAG_SYM};
use sigma_core::terms::{bloom_bit_symbol, KboOrdering, TermFactsTable};
use sigma_core::text::{chars_of, decimal, hex_padded, parse_u32, parse_usize, text_between};
use sigma_core::theory::{Coverage, CoverageClaim, RelationClaim};
use sigma_core::types::{Literal, OpKind, Symbol};
use sigma_core::unify::{apply, apply_off, match_one_way, shift_slots, term_slots, unify, unify_off, walk, Subst};
use sigma_core::units::{head_key, op_tag, seat_shape_coin, Atom, AtomInfo, DemodIndex, SeatK, UnitHit, UnitStores};

fn sym(name: &str) -> Term {
    Term::Sym(Symbol::new(name))
}

fn app(v: Vec<Term>) -> Term {
    Term::App(v)
}

fn var(s: u64) -> Term {
    Term::Var(s)
}

fn id(name: &str) -> u64 {
    Symbol::hash_name(name)
}

const SAMPLES: [u64; 6] = [0, 1, 2, 0x8000_0000_0000_0000, 0x1234_5678_9ABC_DEF0, u64::MAX];

#[test]
fn names_hash_as_published() {
    assert_eq!(id(""), 0xEF46_DB37_51D8_E999);
    assert_eq!(id("a"), 0xD24E_C4F1_A98C_6E5B);
    assert_eq!(id("abc"), 0x44BC_2CF5_AD77_0999);
    assert_eq!(canonical_var(0), id("V0"));
    assert_eq!(canonical_var(12), id("V12"));
}

#[test]
fn field_products() {
    assert_eq!(gf64::mul(2, 2), 4);
    assert_eq!(gf64::mul(3, 3), 5);
    assert_eq!(gf64::sq(3), 5);
    assert_eq!(gf64::cube(3), 15);
    assert_eq!(gf64::mul(1 << 63, 2), 0x1B);
    assert_eq!(gf64::mul(0x1234, 1), 0x1234);
    assert_eq!(gf64::mul(0x1234, 0), 0);
    assert_eq!(gf64::inv(1), 1);
    assert_eq!(gf64::mul(2, gf64::inv(2)), 1);
}

#[test]
fn field_rules() {
    for a in SAMPLES {
        for b in SAMPLES {
            assert_eq!(gf64::mul(a, b), gf64::mul(b, a));
            assert_eq!(gf64::sq(a ^ b), gf64::sq(a) ^ gf64::sq(b));
            assert_eq!(gf64::cube(gf64::mul(a, b)), gf64::mul(gf64::cube(a), gf64::cube(b)));
            assert_eq!(gf64::mul(a, b) == 0, a == 0 || b == 0);
            for c in SAMPLES {
                assert_eq!(gf64::mul(a ^ b, c), gf64::mul(a, c) ^ gf64::mul(b, c));
                assert_eq!(gf64::mul(gf64::mul(a, b), c), gf64::mul(a, gf64::mul(b, c)));
            }
        }
        if a != 0 {
            assert_eq!(gf64::mul(a, gf64::inv(a)), 1);
        }
        let mut s = a;
        for _ in 0..64 {
            s = gf64::sq(s);
        }
        assert_eq!(s, a, "squared as often as there are bits");
        assert_eq!(gf64::sq(a) == a, a <= 1);
    }
}

#[test]
fn distinct_seats_are_solved_by_the_first_channels() {
    let a = [seat_elem(id("f"), 1), seat_elem(id("f"), 2), seat_elem(id("f"), 3)];
    let mut coef = [[0u64; 3]; 4];
    for (u, e) in a.iter().enumerate() {
        let p = seat_powers(*e);
        for j in 0..4 {
            coef[j][u] = p[j];
        }
    }
    for v in 1..=3 {
        let (pivot, inv, mask) = solve_plan(&coef, v).expect("distinct elements are told apart");
        for i in 0..v {
            assert_eq!(usize::from(pivot[i]), i);
        }
        assert_eq!(mask, 0x0F & !((1u8 << v) - 1));
        // The inverse recovers the unknowns.
        let x = [7u64, 11, 13];
        let mut ds = [0u64; 3];
        for i in 0..v {
            for u in 0..v {
                ds[i] ^= gf64::mul(coef[i][u], x[u]);
            }
        }
        for u in 0..v {
            let mut k = 0;
            for i in 0..v {
                k ^= gf64::mul(inv[u][i], ds[i]);
            }
            assert_eq!(k, x[u]);
        }
    }
}

#[test]
fn dependent_channels_are_left_out() {
    // Channel zero says nothing: the choice moves down by one.
    let coef = [[0, 0, 0], [1, 2, 0], [2, 4, 0], [1, 3, 0]];
    let (pivot, _, mask) = solve_plan(&coef, 2).unwrap();
    assert_eq!((pivot[0], pivot[1]), (1, 3));
    assert_eq!(mask, 0b0101);
    // Two columns that agree cannot be told apart.
    let same = [[1, 1, 0], [5, 5, 0], [9, 9, 0], [2, 2, 0]];
    assert!(solve_plan(&same, 2).is_none());
    assert!(solve_plan(&same, 1).is_some());
    // What is not used is zero.
    let late = [[0, 0, 0], [1, 0, 0], [1, 0, 0], [1, 0, 0]];
    assert_eq!(solve_plan(&late, 1), Some(([1, 0, 0], [[1, 0, 0], [0, 0, 0], [0, 0, 0]], 0b1101)));
    assert_eq!(solve_plan(&[[0, 0, 0]; 4], 1), None);
}

#[test]
fn nodes_are_laid_out_in_order() {
    let mut arena = TermArena::new();
    let t = app(vec![sym("f"), app(vec![sym("g"), var(0)]), var(0)]);
    let n = arena.intern_term(&t).unwrap();
    assert_eq!((n, arena.len()), (4, 5));
    assert_eq!((arena.hits(), arena.misses()), (1, 5));
    let top = arena.node(n);
    assert_eq!((top.flags, top.kids, top.weight, top.sym), (F_HAS_VAR, [0, 3, 2, 0], 4, 0));
    let inner = arena.node(3);
    assert_eq!((inner.flags, inner.kids, inner.weight), (F_HAS_VAR, [1, 2, 0, 0], 2));
    assert_eq!((arena.node(0).flags, arena.node(0).kids), (0, [0, 0, 0, 0]));
    // More children than a node holds stand in the spill.
    let wide = app(vec![sym("h"), sym("a"), sym("b"), sym("c"), sym("d")]);
    let w = arena.intern_term(&wide).unwrap();
    assert_eq!((arena.node(w).flags, arena.node(w).nargs), (F_SPILL, 5));
    assert_eq!(arena.node(w).kids, [0, 0, 0, 0]);
    let open = app(vec![sym("h"), sym("a"), sym("b"), sym("c"), var(1)]);
    let o = arena.intern_term(&open).unwrap();
    assert_eq!((arena.node(o).flags, arena.node(o).kids), (F_HAS_VAR | F_SPILL, [5, 0, 0, 0]));
    assert_eq!(arena.intern_term(&wide), Some(w), "interned once");
}

#[test]
fn a_verdict_depends_on_neither_order_nor_names() {
    let shape = |pos: bool, head: HeadK, a: u32, b: u32| LitShape { pos, head, a: ArgK::Slot(a), b: ArgK::Slot(b) };
    let rel = || HeadK::Sym(Symbol::new("above"));
    let trans = |x: u32, m: u32, z: u32, order: [usize; 3]| {
        let lits = [shape(false, rel(), x, m), shape(false, rel(), m, z), shape(true, rel(), x, z)];
        order.iter().map(|i| lits[*i].clone()).collect::<Vec<LitShape>>()
    };
    for order in [[0, 1, 2], [0, 2, 1], [1, 0, 2], [1, 2, 0], [2, 0, 1], [2, 1, 0]] {
        for (x, m, z) in [(0, 1, 2), (7, 3, 5), (2, 1, 0)] {
            assert!(verify(SchemaKind::Transitivity, &trans(x, m, z, order)));
            assert!(!verify(SchemaKind::Antisymmetry, &trans(x, m, z, order)));
        }
        assert!(!verify(SchemaKind::Transitivity, &trans(0, 1, 0, order)), "two names for one");
    }
    let guard = |v: u32| LitShape {
        pos: false,
        head: HeadK::Sym(Symbol::new("instance")),
        a: ArgK::Slot(v),
        b: ArgK::Sym(id("SymmetricRelation")),
    };
    for (r, x, y) in [(0, 1, 2), (9, 4, 6)] {
        let meta = vec![shape(true, HeadK::Var(r), y, x), guard(r), shape(false, HeadK::Var(r), x, y)];
        assert!(verify(SchemaKind::SymMetaschema, &meta));
        let other = vec![shape(true, HeadK::Var(r), y, x), guard(x), shape(false, HeadK::Var(r), x, y)];
        assert!(!verify(SchemaKind::SymMetaschema, &other));
    }
}

#[test]
fn rows_are_sums_over_seats() {
    let t = app(vec![sym("f"), sym("a"), sym("b")]);
    let mut row = node_tags(id("f"), 3);
    for (i, name) in ["a", "b"].iter().enumerate() {
        let p = seat_powers(seat_elem(id("f"), i + 1));
        for j in 0..4 {
            row[j] ^= gf64::mul(p[j], id(name));
        }
    }
    assert_eq!(term_row(&t), row);
    assert_eq!(term_key(&sym("a")), id("a"));
    assert_eq!(term_key(&t), app_content_key(&vec![sym("f"), sym("a"), sym("b")]));
    assert_eq!(term_key(&var(3)), blank_key(3));
    assert_eq!(term_row(&sym("a")), leaf_row(id("a")));
    assert_ne!(lit_key(&Literal::Str("3".to_string())), lit_key(&Literal::Number("3".to_string())));
}

#[test]
fn keys_of_content_are_shared() {
    let t = app(vec![sym("likes"), sym("Fido"), app(vec![sym("FoodFn"), sym("Fido")])]);
    let mut table = AtomTable::new();
    let atom = table.intern_atom(&t).unwrap();
    let mut facts = TermFactsTable::new();
    let kbo = KboOrdering::new();
    let (key, f) = facts.ground_key_facts(&t, &kbo).unwrap();
    assert_eq!(key, atom);
    assert_eq!((f.size, f.depth, f.kbo_weight), (4, 2, 4));
    let mut arena = TermArena::new();
    let n = arena.intern_term(&t).unwrap();
    assert_eq!(arena.node(n).key, atom);
    // By identity the same facts are found.
    let mut other = TermFactsTable::new();
    let syn = SyntacticLayer::new();
    assert_eq!(other.facts_for_atom(atom, &table, &syn, &kbo), Some(f));
    assert_eq!(other.get(atom), Some(f));
    assert_eq!(other.facts_for_atom(1, &table, &syn, &kbo), None);
    assert_eq!(facts.len(), 2, "the term and the compound in it");
    assert_ne!(
        literal_content_key(&Literal::Str("x".to_string())),
        literal_content_key(&Literal::Number("x".to_string())),
    );
}

#[test]
fn atoms_come_back_as_they_went_in() {
    let t = app(vec![
        sym("likes"),
        var(1),
        app(vec![sym("FoodFn"), var(0), Term::Lit(Literal::Number("3".to_string()))]),
    ]);
    let mut table = AtomTable::new();
    let syn = SyntacticLayer::new();
    let canon = CanonVars::new(2);
    let atom = table.intern_atom(&t).unwrap();
    assert_eq!(slot_atom(&table, &syn, atom, &canon, 0), Some(t.clone()));
    assert_eq!(slot_atom(&table, &syn, atom, &canon, 5), Some(shift_slots(&t, 5)));
    assert_eq!(slot_atom(&table, &syn, atom, &CanonVars::new(1), 0), None, "a variable is not canonical");
    assert_eq!(slot_atom(&table, &syn, 1, &canon, 0), None, "nothing is stored");
    let named = table.term_of(atom, &syn).unwrap();
    assert_eq!(canon.reslot(&named, 0), Some(t));
    assert_eq!(table.intern_atom(&var(0)), None);
}

#[test]
fn an_empty_bloom_intersection_rules_symbols_out() {
    let t = app(vec![sym("f"), sym("a"), app(vec![sym("g"), sym("b")])]);
    let f = TermFactsTable::new().ground_facts(&t, &KboOrdering::new()).unwrap();
    let mut mask = 0u64;
    for name in ["f", "a", "g", "b"] {
        assert_ne!(f.sym_bloom & bloom_bit_symbol(id(name)), 0);
        mask |= bloom_bit_symbol(id(name));
    }
    assert_eq!(f.sym_bloom, mask);
    let mut weighted = KboOrdering::new();
    weighted.set_weight(id("b"), 10);
    assert_eq!(weighted.symbol_weight(id("b")), 10);
    let heavy = TermFactsTable::new().ground_facts(&t, &weighted).unwrap();
    assert_eq!(heavy.kbo_weight, f.kbo_weight + 9);
    assert_eq!(TermFactsTable::new().ground_facts(&app(vec![sym("f"), var(0)]), &weighted), None);
}

#[test]
fn one_number_for_each_tree() {
    let mut arena = TermArena::new();
    let fa = app(vec![sym("f"), sym("a")]);
    let n = arena.intern_term(&fa).unwrap();
    assert_eq!(arena.len(), 3);
    assert_eq!(arena.intern_term(&fa).unwrap(), n);
    assert_eq!((arena.len(), arena.misses()), (3, 3), "nothing new");
    assert_eq!(arena.hits(), 3);
    let m = arena.intern_term(&app(vec![sym("f"), sym("b")])).unwrap();
    assert_ne!(n, m);
    assert_eq!(arena.intern_term(&fa).unwrap(), n, "numbers stay");
    let node = arena.node(n);
    assert_eq!((node.tag, node.nargs, node.flags & F_HAS_VAR), (TAG_APP, 2, 0));
    let kid = arena.kid(node, 1);
    assert_eq!(arena.node(kid).tag, TAG_SYM);
    assert_eq!(arena.sym_content(arena.node(kid).sym), id("a"));
    assert_eq!(arena.ground_probe_key(kid), Some(id("a")));
    assert_eq!(arena.ground_probe_key(n), Some(node.key));
    assert_eq!(arena.subterm_at_path(n, &[1]), Some(kid));
    assert_eq!(arena.subterm_at_path(n, &[2]), None);
    assert_eq!(arena.subterm_at_path(n, &[1, 0]), None);
}

#[test]
fn what_is_interned_stays_as_it_was() {
    let mut arena = TermArena::new();
    let wide = app(vec![sym("f"), sym("a"), sym("b"), var(1), sym("c"), sym("d")]);
    let n = arena.intern_term(&wide).unwrap();
    let look = |arena: &TermArena| {
        (0..arena.len() as u32)
            .filter(|k| *k <= n)
            .map(|k| {
                let node = arena.node(k);
                let kids: Vec<u32> = if node.tag == TAG_APP {
                    (0..node.nargs as usize).map(|i| arena.kid(node, i)).collect()
                } else {
                    Vec::new()
                };
                let content = if node.tag == TAG_SYM { Some(arena.sym_content(node.sym)) } else { None };
                (node.tag, node.nargs, node.flags, node.key, kids, content)
            })
            .collect::<Vec<_>>()
    };
    let before = look(&arena);
    arena.intern_term(&app(vec![sym("g"), sym("e"), wide.clone()])).unwrap();
    assert_eq!(look(&arena), before);
    // Nor does a term that is refused touch them.
    let broad = app((0..256).map(|k| sym(&format!("x{k}"))).collect());
    assert_eq!(arena.intern_term(&broad), None);
    assert_eq!(look(&arena), before);
    assert_eq!(arena.intern_clause(&vec![(true, sym("q")), (true, broad)], &vec![1, 2]).map(|l| l.len()), None);
    assert_eq!(look(&arena), before);
}

#[test]
fn clauses_are_interned_literal_by_literal() {
    let mut table = AtomTable::new();
    let wide = app(vec![sym("f"), sym("a"), sym("b"), sym("c"), sym("d"), sym("e")]);
    let lits = vec![(true, wide.clone()), (false, app(vec![sym("g"), sym("a")])), (true, wide.clone())];
    let atoms: Vec<u64> = lits.iter().map(|(_, t)| table.intern_atom(t).unwrap()).collect();
    let mut arena = TermArena::new();
    let ids = arena.intern_clause(&lits, &atoms).unwrap();
    assert_eq!(ids.len(), 3);
    assert_eq!(ids.get(0), ids.get(2));
    assert_ne!(ids.get(0), ids.get(1));
    assert_eq!(ids.get(3), None);
    assert_eq!((arena.roots(), arena.skipped(), arena.key_mismatches()), (3, 0, 0));
    assert_eq!(arena.spilled(), 6);
    assert!(arena.intern_clause(&vec![(true, sym("p"))], &vec![1]).is_some());
    assert_eq!(arena.key_mismatches(), 1);
    assert_eq!(arena.intern_clause(&lits, &vec![]).map(|l| l.len()), Some(0), "no atoms, no terms");
    assert_eq!(arena.roots(), 4);
    let broad = app((0..256).map(|_| sym("x")).collect());
    assert!(arena.intern_clause(&vec![(true, broad)], &vec![1]).is_none());
    assert_eq!(arena.skipped(), 1);
}

#[test]
fn arena_matches_agree_with_term_matches() {
    let pats = [
        app(vec![sym("f"), var(0), var(0)]),
        app(vec![sym("f"), var(0), app(vec![sym("g"), var(1)])]),
        app(vec![sym("f"), sym("a"), var(2)]),
    ];
    let targets = [
        app(vec![sym("f"), sym("a"), sym("a")]),
        app(vec![sym("f"), sym("a"), app(vec![sym("g"), sym("b")])]),
        app(vec![sym("f"), sym("b"), app(vec![sym("h"), sym("b")])]),
    ];
    let mut arena = TermArena::new();
    for p in &pats {
        for t in &targets {
            let (pn, tn) = (arena.intern_term(p).unwrap(), arena.intern_term(t).unwrap());
            let mut s: Subst = vec![None, None, None];
            let plain = match_one_way(p, t, &mut s);
            let mut nums: Vec<Option<u32>> = vec![None; 3];
            let mut trail: Vec<usize> = Vec::new();
            assert_eq!(arena.match_one_way(pn, 0, tn, &mut nums, &mut trail), plain);
            for (bound, num) in s.iter().zip(&nums) {
                match (bound, num) {
                    (Some(b), Some(n)) => assert_eq!(arena.intern_term(b), Some(*n)),
                    (None, None) => {}
                    other => panic!("{other:?}"),
                }
            }
            if plain {
                assert!(arena.seat_prefilter_match(pn, tn), "the prefilter drops no match");
                assert_eq!(apply(p, &s), *t);
            } else {
                assert!(nums.iter().all(Option::is_none) && trail.is_empty());
            }
        }
    }
    let (p, t) = (arena.intern_term(&pats[1]).unwrap(), arena.intern_term(&targets[2]).unwrap());
    assert!(!arena.seat_prefilter_match(p, t));
}

#[test]
fn unifiers_are_most_general_and_symmetric() {
    let a = app(vec![sym("f"), var(0), app(vec![sym("g"), var(1)])]);
    let b = app(vec![sym("f"), app(vec![sym("h"), var(1)]), app(vec![sym("g"), var(2)])]);
    let mut s: Subst = vec![None; 3];
    let mut r: Subst = vec![None; 3];
    assert!(unify(&a, &b, &mut s) && unify(&b, &a, &mut r));
    let both = apply(&a, &s);
    assert_eq!(both, apply(&b, &s));
    assert_eq!(apply(&both, &s), both, "resolving again changes nothing");
    // Nothing beyond what the trees ask for is bound.
    let mut free: BTreeSet<u64> = BTreeSet::new();
    term_slots(&both, &mut free);
    assert_eq!(free.len(), 1);
    assert_eq!(apply(&a, &r), apply(&b, &r));
    // A clash leaves no trace.
    let mut t: Subst = vec![None; 3];
    let left = app(vec![sym("f"), var(0), var(0)]);
    let right = app(vec![sym("f"), sym("a"), app(vec![sym("g"), var(0)])]);
    assert!(!unify(&left, &right, &mut t));
    assert!(t.iter().all(Option::is_none));
    // Read apart, the same trees unify.
    let mut u: Subst = vec![None; 4];
    let (x, y) = (app(vec![sym("f"), var(0)]), app(vec![sym("f"), app(vec![sym("g"), var(0)])]));
    assert!(!unify(&x, &y, &mut vec![None; 2]));
    assert!(unify_off(&x, 0, &y, 2, &mut u));
    assert_eq!(apply(&x, &u), apply_off(&y, 2, &u));
    assert_eq!(apply(&x, &u), shift_slots(&y, 2));
    assert_eq!(walk(&var(0), &u), &app(vec![sym("g"), var(2)]));
}

/// The atom `t`, over canonical variables, with its seats described.
fn atom(table: &mut AtomTable, t: &Term, mask: u64, residue: u64, ground: bool) -> Atom {
    let named = canonical(t);
    let key = table.intern_atom(t).unwrap();
    Atom { id: key, term: named, info: AtomInfo { mask, base_residue: residue, ground } }
}

fn canonical(t: &Term) -> Term {
    match t {
        Term::Var(v) => Term::Var(canonical_var(*v)),
        Term::App(e) => Term::App(e.iter().map(canonical).collect()),
        other => other.clone(),
    }
}

#[test]
fn matching_units_are_candidates() {
    let canon = CanonVars::new(4);
    let mut table = AtomTable::new();
    let (tag, coin) = (99u64, |i: u64, name: &str| id(name).rotate_left(i as u32));
    // p(?x, a): the seat of the variable is open.
    let pattern = app(vec![sym("p"), var(0), sym("a")]);
    let residue = tag ^ coin(0, "p") ^ coin(2, "a");
    let mut units = UnitStores::new();
    units.add_unit(5, true, &atom(&mut table, &pattern, 0b010, residue, false), 1, &canon);
    // q(?x, s(?x)): an open compound has a shape.
    let shaped = app(vec![sym("q"), var(0), app(vec![sym("s"), var(0)])]);
    units.add_unit(6, true, &atom(&mut table, &shaped, 0b110, tag ^ coin(0, "q"), false), 1, &canon);
    let leaf = |i: u64, name: &str| SeatK::Leaf(coin(i, name));
    let (ph, pa) = head_key(&pattern).unwrap();
    let found = |seats: Vec<SeatK>| units.open_candidates(true, ph, pa, tag, &seats).len();
    assert_eq!(found(vec![leaf(0, "p"), leaf(1, "c"), leaf(2, "a")]), 1);
    assert_eq!(found(vec![leaf(0, "p"), leaf(1, "c"), leaf(2, "b")]), 0, "another constant");
    assert_eq!(found(vec![leaf(0, "p"), leaf(1, "c"), SeatK::Var]), 0, "a constant matches no variable");
    assert_eq!(found(vec![leaf(0, "p"), leaf(1, "c"), SeatK::Compound(None)]), 1, "has to be tried");
    assert_eq!(units.open_candidates(false, ph, pa, tag, &vec![]).len(), 0);
    let (qh, qa) = head_key(&shaped).unwrap();
    let good = seat_shape_coin(2, &app(vec![sym("s"), sym("c")]));
    let bad = seat_shape_coin(2, &app(vec![sym("s"), sym("c"), sym("c")]));
    assert_ne!(good, bad);
    assert_eq!(seat_shape_coin(2, &sym("c")), None);
    let of = |c: SeatK| units.open_candidates(true, qh, qa, tag, &vec![leaf(0, "q"), leaf(1, "c"), c]).len();
    assert_eq!((of(SeatK::Compound(good)), of(SeatK::Compound(bad)), of(leaf(2, "c"))), (1, 0, 0));
    // The units do match what their candidates promise.
    let t = atom(&mut table, &app(vec![sym("p"), sym("c"), sym("a")]), 0, 0, true);
    assert_eq!(units.check(true, &t, 0, &canon), Some(UnitHit::Subsumes(5)));
    assert_eq!(units.check(false, &t, 0, &canon), Some(UnitHit::Refutes(5)));
}

#[test]
fn ground_units_hit_their_literal_and_its_negation() {
    let canon = CanonVars::new(4);
    let mut table = AtomTable::new();
    let t = atom(&mut table, &app(vec![sym("p"), sym("a")]), 0, 0, true);
    let mut units = UnitStores::new();
    units.add_unit(3, false, &t, 0, &canon);
    units.add_unit(9, false, &t, 0, &canon);
    assert_eq!(units.check(false, &t, 0, &canon), Some(UnitHit::Subsumes(3)), "the first stays");
    assert_eq!(units.check(true, &t, 0, &canon), Some(UnitHit::Refutes(3)));
    assert_eq!(units.ground_unit(false, t.id), Some(3));
    assert_eq!(units.ground_unit(true, t.id), None);
    assert_eq!(units.ground_len(), 1);
}

#[test]
fn rewrites_are_found_by_their_shape() {
    let mut index = DemodIndex::new();
    assert!(index.is_empty());
    index.add(1, app(vec![sym("f"), var(2)]), sym("a"));
    index.add(2, sym("b"), sym("a"));
    let hits = index.candidates(&app(vec![sym("f"), sym("c")])).unwrap();
    assert_eq!((hits.len(), hits[0].clause, hits[0].nslots), (1, 1, 3));
    assert_eq!(index.candidates(&sym("b")).unwrap()[0].clause, 2);
    assert!(index.candidates(&app(vec![sym("g"), sym("c")])).is_none());
    let tags: BTreeSet<u8> = [
        OpKind::And,
        OpKind::Or,
        OpKind::Not,
        OpKind::Implies,
        OpKind::Iff,
        OpKind::Equal,
        OpKind::ForAll,
        OpKind::Exists,
    ]
    .iter()
    .map(op_tag)
    .collect();
    assert_eq!(tags.len(), 8);
}

#[test]
fn a_rewrite_stays_until_the_index_is_cleared() {
    let mut index = DemodIndex::new();
    index.add(1, app(vec![sym("f"), var(0)]), sym("a"));
    for k in 2..6 {
        index.add(k, app(vec![sym("f"), app(vec![sym("g"), var(u64::from(k))])]), sym("a"));
        index.add(k + 10, app(vec![sym("h"), var(0)]), sym("a"));
        let hits = index.candidates(&app(vec![sym("f"), sym("c")])).unwrap();
        assert_eq!((hits[0].clause, hits[0].nslots), (1, 1));
        assert_eq!(hits.len(), k as usize);
        assert_eq!(hits[k as usize - 1].nslots, k + 1);
    }
    // No head to look under, no candidates.
    let number = Term::Lit(Literal::Number("3".to_string()));
    for t in [var(0), number, app(vec![var(0), sym("a")]), app(vec![])] {
        assert!(index.candidates(&t).is_none());
    }
    index.clear();
    assert!(index.is_empty());
    assert!(index.candidates(&app(vec![sym("f"), sym("c")])).is_none());
}

fn lit(pos: bool, head: &str, a: u64, b: u64) -> PLit {
    PLit { pos, term: app(vec![sym(head), var(a), var(b)]) }
}

#[test]
fn rules_have_one_key_for_every_relation() {
    let table = SchemaTable::build();
    for rel in ["likes", "near", "connected"] {
        let hit = table.probe_terms(&vec![lit(false, rel, 0, 1), lit(true, rel, 1, 0)]).unwrap();
        assert_eq!(hit.kind, SchemaKind::Symmetry);
        assert_eq!(hit.rel.unwrap().name(), rel);
        assert!(hit.rel2.is_none());
    }
    assert!(table.probe_terms(&vec![lit(false, "r", 0, 1), lit(true, "r", 0, 1)]).is_none());
    let inverse = table.probe_terms(&vec![lit(true, "child", 1, 0), lit(false, "parent", 0, 1)]).unwrap();
    assert_eq!(inverse.kind, SchemaKind::Inverse);
    assert_eq!((inverse.rel.unwrap().name(), inverse.rel2.unwrap().name()), ("parent", "child"));
    assert!(table.len() >= 10);
}

#[test]
fn every_pattern_is_recognised_for_every_relation() {
    let table = SchemaTable::build();
    for rel in ["likes", "schema-rel", "before"] {
        let found = |lits: Vec<PLit>| table.probe_terms(&lits).map(|h| (h.kind, h.rel.map(|s| s.name().to_string())));
        let named = |kind: SchemaKind| Some((kind, Some(rel.to_string())));
        let step = vec![lit(false, rel, 0, 1), lit(false, rel, 1, 2), lit(true, rel, 0, 2)];
        assert_eq!(found(step), named(SchemaKind::Transitivity));
        assert_eq!(found(vec![lit(false, rel, 0, 0)]), named(SchemaKind::Irreflexivity));
        assert_eq!(found(vec![lit(false, rel, 0, 1), lit(true, rel, 1, 0)]), named(SchemaKind::Symmetry));
    }
}

#[test]
fn a_hit_carries_the_names_of_its_clause() {
    let table = SchemaTable::build();
    let lits = vec![lit(false, "smallerThanX", 0, 1), lit(true, "largerThanX", 1, 0)];
    let hit = table.probe_terms(&lits).unwrap();
    assert_eq!(hit.kind, SchemaKind::Inverse);
    assert_eq!((hit.rel.unwrap().name(), hit.rel2.unwrap().name()), ("smallerThanX", "largerThanX"));
    let over: Vec<PLit> = lits.iter().map(|l| PLit { pos: l.pos, term: canonical(&l.term) }).collect();
    let hit = table.probe(&over, &CanonVars::new(2)).unwrap();
    assert_eq!((hit.rel.unwrap().name(), hit.rel2.unwrap().name()), ("smallerThanX", "largerThanX"));
    // A variable that is not canonical.
    assert!(table.probe(&over, &CanonVars::new(1)).is_none());
}

#[test]
fn hits_are_registered_by_kind() {
    let hit = |kind: SchemaKind, rel: Option<&str>| SchemaHit {
        kind,
        rel: rel.map(Symbol::new),
        rel2: if kind == SchemaKind::Inverse { Some(Symbol::new("q")) } else { None },
    };
    let mut reg = SchemaRegistry::new();
    assert!(reg.apply_schema_hit(&hit(SchemaKind::Symmetry, Some("r")), Some(4)));
    assert!(!reg.apply_schema_hit(&hit(SchemaKind::Symmetry, None), Some(4)));
    assert!(!reg.apply_schema_hit(&hit(SchemaKind::Transitivity, Some("r")), None));
    assert!(reg.apply_schema_hit(&hit(SchemaKind::SymMetaschema, None), None));
    assert!(reg.apply_schema_hit(&hit(SchemaKind::EqSubstitution, Some("r")), None));
    assert!(!reg.apply_schema_hit(&hit(SchemaKind::TransMetaschema, None), None));
    assert!(!reg.apply_schema_hit(&hit(SchemaKind::Antisymmetry, Some("r")), None));
    assert!(!reg.apply_schema_hit(&hit(SchemaKind::Irreflexivity, Some("r")), None));
    assert!(!reg.apply_schema_hit(&hit(SchemaKind::Inverse, Some("r")), Some(5)));
    assert_eq!(reg.symmetric(), &vec![(id("r"), Some(4))]);
    assert_eq!(reg.transitive(), &vec![(id("r"), None)]);
    assert_eq!(reg.inverse(), &vec![(id("r"), id("q"), Some(5))]);
    assert_eq!((reg.mined_symmetric, reg.mined_transitive, reg.mined_other), (1, 1, 3));
}

#[test]
fn the_pre_pass_mines_each_clause_of_a_root() {
    let table = SchemaTable::build();
    let canon = CanonVars::new(4);
    let named = |l: PLit| PLit { pos: l.pos, term: canonical(&l.term) };
    let clause = |lits: Vec<PLit>, nvars: u32| PClause { lits: lits.into_iter().map(named).collect(), nvars };
    let clauses = vec![
        clause(vec![lit(false, "near", 0, 1), lit(true, "near", 1, 0)], 2),
        clause(vec![lit(false, "before", 0, 1), lit(false, "before", 1, 2), lit(true, "before", 0, 2)], 3),
        clause(vec![lit(false, "near", 0, 1), lit(true, "near", 1, 0)], 0),
    ];
    let mut reg = SchemaRegistry::new();
    reg.mine_schema(false, &table, &clauses, &canon, 8);
    assert!(reg.symmetric().is_empty(), "switched off");
    reg.mine_schema(true, &table, &clauses, &canon, 8);
    assert_eq!(reg.symmetric(), &vec![(id("near"), Some(8))]);
    assert_eq!(reg.transitive(), &vec![(id("before"), Some(8))]);
}

#[test]
fn canonical_clauses_number_variables_by_occurrence() {
    let clause = vec![
        PLit { pos: true, term: app(vec![sym("p"), var(40), var(7)]) },
        PLit { pos: false, term: app(vec![sym("q"), var(7), var(40)]) },
    ];
    let out = canonical_clause(&clause).unwrap();
    assert_eq!((out[0].pos, out[1].pos), (false, true));
    assert_eq!(out[0].term, app(vec![sym("q"), var(0), var(1)]));
    assert_eq!(out[1].term, app(vec![sym("p"), var(1), var(0)]));
    let canon = CanonVars::new(3);
    assert_eq!(canon.canonical_slot(canonical_var(2)), Some(2));
    assert_eq!(canon.canonical_slot(canonical_var(3)), None);
    assert_eq!(canon.slot_var_id(1), Some(canonical_var(1)));
    assert_eq!(canon.slot_var_id(3), None);
    assert_eq!(canon.reslot(&var(canonical_var(1)), 10), Some(var(11)));
    assert_eq!(canon.reslot(&var(5), 0), None);
}

fn point(name: &str) -> PointKey {
    PointKey::Point(id(name))
}

#[test]
fn orders_hold_around_a_cycle() {
    let mut n = TemporalNet::new();
    n.add_lt(point("a"), point("b"));
    n.add_le(point("b"), point("c"));
    n.add_le(point("c"), point("a"));
    assert!(!n.consistent());
    for x in ["a", "b", "c"] {
        for y in ["a", "b", "c"] {
            assert!(n.entails(point(x), point(y), Order::Lt), "{x} before {y}");
        }
    }
    assert!(!n.entails(point("a"), point("d"), Order::Lt));
}

#[test]
fn witnesses_suffice() {
    let steps = [("a", "b", 11), ("b", "c", 12), ("a", "d", 13), ("d", "e", 14)];
    let mut n = TemporalNet::new();
    for (x, y, sid) in steps {
        n.add_lt_w(point(x), point(y), Some(sid));
    }
    assert!(n.entails(point("a"), point("c"), Order::Lt));
    let cites = n.witness(point("a"), point("c"), Order::Lt);
    assert_eq!(cites, vec![11, 12]);
    // The cited constraints entail the order by themselves.
    let mut alone = TemporalNet::new();
    for (x, y, sid) in steps {
        if cites.contains(&sid) {
            alone.add_lt_w(point(x), point(y), Some(sid));
        }
    }
    assert!(alone.entails(point("a"), point("c"), Order::Lt));
    assert!(!alone.entails(point("a"), point("e"), Order::Lt));
}

#[test]
fn more_constraints_entail_more() {
    let mut n = TemporalNet::new();
    n.add_le(point("a"), point("b"));
    n.add_eq(point("b"), point("c"));
    assert!(n.entails(point("a"), point("c"), Order::Le));
    assert!(!n.entails(point("a"), point("c"), Order::Lt));
    n.add_lt(point("a"), point("b"));
    assert!(n.entails(point("a"), point("c"), Order::Le));
    assert!(n.entails(point("a"), point("c"), Order::Lt));
    assert!(n.consistent());
}

fn limits(total_timeout: u32) -> ScaleConfig {
    ScaleConfig { factor: 2, max_disproofs: 3, max_time_runs: 2, min_budget: 16, total_timeout }
}

#[test]
fn budgets_stay_between_their_bounds() {
    let mut p = ScalePlanner::new(100, limits(0));
    assert!(p.step(ScaleAct::Widen, false, false, 0));
    assert_eq!(p.budget(), 200);
    assert!(p.step(ScaleAct::Narrow, false, false, 0));
    assert!(100 < p.budget() && p.budget() < 200);
    assert!(!p.step(ScaleAct::Done, false, false, 0));
    let mut q = ScalePlanner::new(100, limits(0));
    assert!(!q.step(ScaleAct::Widen, true, false, 0), "nothing more to give");
}

#[test]
fn no_attempt_follows_the_deadline() {
    let mut p = ScalePlanner::new(100, limits(10));
    assert_eq!(p.time_left(), i128::from(10 * SECOND));
    assert!(!p.step(ScaleAct::Widen, false, false, 10 * SECOND));
    assert!(p.deadline_exceeded());
    // An attempt that took too long leaves less than nothing.
    let mut over = ScalePlanner::new(100, limits(5));
    assert!(!over.step(ScaleAct::Widen, false, false, 5 * SECOND + SECOND / 2));
    assert_eq!(over.time_left(), -i128::from(SECOND / 2));
    assert_eq!(over.slice(), 0);
    let d = ScalePlanner::new(100, limits(10));
    assert!(i128::from(d.slice()) * i128::from(SECOND) * 5 >= d.time_left(), "the shares cover the time");
}

#[test]
fn a_driver_keeps_the_best_answer() {
    let mut d = ScaleDriver::new(100, limits(0));
    let (budget, _) = d.next().unwrap();
    assert_eq!(budget, 100);
    assert_eq!(d.record(ProverStatus::Unknown, Some(TerminationReason::GaveUp), 100, 1), Verdict::Again);
    let (wider, _) = d.next().unwrap();
    assert_eq!(wider, 200);
    assert_eq!(d.record(ProverStatus::Proved, None, 200, 1), Verdict::Settled);
    let mut e = ScaleDriver::new(100, limits(0));
    e.next();
    assert_eq!(e.record(ProverStatus::Disproved, None, 40, 1), Verdict::Best, "fewer were there than asked for");
}

#[test]
fn a_factor_of_nothing_matters_only_where_it_divides() {
    let cfg = ScaleConfig { factor: 0, ..limits(0) };
    let mut d = ScaleDriver::new(100, cfg);
    d.next();
    assert!(!d.divides_budget(ProverStatus::Unknown, Some(TerminationReason::GaveUp), 100, 1));
    assert!(d.divides_budget(ProverStatus::Timeout, None, 100, 1));
    assert!(!d.divides_budget(ProverStatus::Timeout, None, 101, 1), "at the floor");
    assert_eq!(d.record(ProverStatus::Proved, None, 100, 1), Verdict::Settled);
    // Multiplied by nothing the budget is no wider, and the search is over.
    assert_eq!(d.record(ProverStatus::Unknown, Some(TerminationReason::GaveUp), 100, 1), Verdict::Best);
    assert_eq!(d.planner.budget(), 100);
}

#[test]
fn fingerprints_tell_background_knobs_apart() {
    let base = Strategy::base();
    let renamed = Strategy::base().named("other");
    assert_eq!(base.bg_fingerprint(), renamed.bg_fingerprint());
    let seeded = Strategy { prec_seed: 5, ..Strategy::base() };
    assert_eq!(base.bg_fingerprint(), seeded.bg_fingerprint());
    let shaped = Strategy { schema: !base.schema, ..Strategy::base() };
    assert_ne!(base.bg_fingerprint(), shaped.bg_fingerprint());
    let lanes = Strategy::tptp_lanes(&Switches::none());
    assert!(lanes.iter().all(|l| l.superposition == lanes[0].superposition));
}

#[test]
fn claims_cover_relations() {
    let claim = CoverageClaim {
        claims: vec![
            RelationClaim { rel: 1, coverage: Coverage::Complete },
            RelationClaim { rel: 2, coverage: Coverage::PositiveOnly },
        ],
        omitted_axioms: vec![9],
    };
    assert!(claim.owns(1) && claim.owns(2) && !claim.owns(9));
}

#[test]
fn numbers_and_texts() {
    assert_eq!((decimal(0), decimal(10_203)), ("0".to_string(), "10203".to_string()));
    assert_eq!((hex_padded(0x2A, 4), hex_padded(0xBEEF, 2)), ("002a".to_string(), "beef".to_string()));
    assert_eq!((parse_u32("42"), parse_u32("+7"), parse_u32("4294967295")), (Some(42), Some(7), Some(u32::MAX)));
    assert_eq!((parse_u32("4294967296"), parse_u32(""), parse_u32("-1"), parse_u32("1a")), (None, None, None, None));
    assert_eq!(parse_usize("12"), Some(12));
    let cs = chars_of("d\u{e9}j\u{e0}");
    assert_eq!(cs.len(), 4);
    assert_eq!(text_between(&cs, 1, 3), "\u{e9}j");
    assert_eq!(sort_dedup(vec![3, 1, 3, 2, 1]), vec![1, 2, 3]);
}
