//! Sessions over a common ontology: what each sees, and what caches forget.
use sigma_core::classify::InferredCache;
use sigma_core::docs::{filter_lang, strip_quotes, DocCache, DocEntry};
use sigma_core::events::{DoubleRange, Event, SemanticError};
use sigma_core::inferred::{collapse_classes, is_variable_name, ClassInference};
use sigma_core::lattice::{mined_edge_of, subrel_lattice_dirty, trans_reach_dirty};
use sigma_core::lattice_cache::{LatticeCache, ReachCache};
use sigma_core::memo::ScopedMemo;
use sigma_core::query_cache::QueryCache;
use sigma_core::roles::{Roles, TaxRelation};
use sigma_core::semantic::SemanticLayer;
use sigma_core::signature::{RelationDomain, RelationRange};
use sigma_core::signature_cache::{DomainCache, RangeCache};
use sigma_core::store::{session_id, Element, Scope, Sentence, SyntacticLayer};
use sigma_core::taxonomy::{try_extract_edge_from, TaxEdges};
use sigma_core::types::{Literal, OpKind, SentenceId, Symbol, SymbolId};
use sigma_core::verdicts::Verdicts;

fn id(name: &str) -> SymbolId {
    Symbol::hash_name(name)
}

fn session(name: &str) -> Scope {
    Scope::Session(session_id(name))
}

/// A flat sentence: words with a question mark are variables, words in quotes
/// texts, words that start with a digit numbers.
fn flat(store: &mut SyntacticLayer, words: &str) -> Sentence {
    let mut elements = Vec::new();
    for w in words.split_whitespace() {
        elements.push(if let Some(v) = w.strip_prefix('?') {
            let name = format!("{v}__1");
            Element::Variable { id: store.intern_symbol(&name), name, is_row: false }
        } else if w.starts_with('"') {
            Element::Literal(Literal::Str(w.to_string()))
        } else if w.starts_with(|c: char| c.is_ascii_digit()) {
            Element::Literal(Literal::Number(w.to_string()))
        } else {
            store.intern_symbol(w);
            Element::Symbol(Symbol::new(w))
        });
    }
    Sentence { elements }
}

/// Stores a flat sentence.
fn stored(store: &mut SyntacticLayer, words: &str) -> SentenceId {
    let s = flat(store, words);
    store.add_sentence(s).unwrap()
}

/// A root of the session `who`.
fn root(store: &mut SyntacticLayer, words: &str, who: &str) -> SentenceId {
    let sid = stored(store, words);
    store.add_root(sid, session_id(who));
    sid
}

/// A promoted root.
fn common(store: &mut SyntacticLayer, words: &str) -> SentenceId {
    let sid = root(store, words, "base");
    store.promote(sid);
    sid
}

/// A promoted rule `(=> a c)`.
fn rule(store: &mut SyntacticLayer, a: &str, c: &str) -> SentenceId {
    let (a, c) = (stored(store, a), stored(store, c));
    let elements = vec![Element::Op(OpKind::Implies), Element::Sub(a), Element::Sub(c)];
    let sid = store.add_sentence(Sentence { elements }).unwrap();
    store.add_root(sid, session_id("base"));
    store.promote(sid);
    sid
}

fn layer_of(facts: &[&str]) -> SemanticLayer {
    let mut store = SyntacticLayer::new();
    for a in facts {
        common(&mut store, a);
    }
    SemanticLayer::new(store)
}

/// Adds a root to the layer and reports it.
fn assert_root(layer: &mut SemanticLayer, words: &str, who: &str) -> (SentenceId, Vec<Event>) {
    let sid = root(&mut layer.syntactic, words, who);
    let head_id = layer.syntactic.sentence(sid).unwrap().head_symbol().unwrap();
    let out = layer.react(&vec![Event::RelationAdded { sid, head_id }]);
    (sid, out)
}

/// The edges of the layer as the scope sees them, in a fixed order.
fn edges(layer: &SemanticLayer, scope: Scope) -> Vec<(SymbolId, SymbolId, String)> {
    let mut out = Vec::new();
    for i in 0..layer.tax.len() {
        if layer.tax.counts_at(i, scope) {
            let e = layer.tax.edge_at(i);
            out.push((e.from, e.to, e.rel.name().to_string()));
        }
    }
    out.sort();
    out
}

/// The reported index is the one that is built from scratch.
fn same_as_rebuilt(layer: &SemanticLayer) -> bool {
    let fresh = TaxEdges::initialize(&layer.syntactic, &Roles::standard());
    let scopes = [Scope::Base, session("s"), session("t")];
    fresh.len() == layer.tax.len()
        && (0..fresh.len()).all(|i| {
            let k = (0..layer.tax.len()).find(|k| layer.tax.edge_at(*k) == fresh.edge_at(i));
            match k {
                Some(k) => scopes.iter().all(|s| fresh.counts_at(i, *s) == layer.tax.counts_at(k, *s)),
                None => false,
            }
        })
}

#[test]
fn a_session_sees_its_own_edges_besides_the_common_ones() {
    let mut layer = layer_of(&["subclass Dog Animal"]);
    assert!(!layer.tax_session_active(session("s")));
    let (_, out) = assert_root(&mut layer, "subclass Puppy Dog", "s");
    assert!(matches!(&out[..], [Event::TaxonomyChanged { syms }] if *syms == vec![id("Dog"), id("Puppy")]));
    assert!(layer.tax_session_active(session("s")));
    assert!(!layer.tax_session_active(session("t")));
    assert!(!layer.tax_session_active(Scope::Base));
    assert!(layer.has_ancestor_scoped(id("Puppy"), id("Animal"), session("s")));
    assert!(!layer.has_ancestor_scoped(id("Puppy"), id("Animal"), session("t")));
    assert!(!layer.has_ancestor(id("Puppy"), id("Animal")));
    assert!(layer.has_ancestor_scoped(id("Dog"), id("Animal"), session("s")));
    assert!(layer.has_ancestor_scoped(id("Dog"), id("Animal"), session("t")));
    assert_eq!(layer.closure_scope(session("t")), Scope::Base);
    assert_eq!(layer.closure_scope(session("s")), session("s"));
    assert!(same_as_rebuilt(&layer));
}

#[test]
fn a_quiet_session_sees_the_common_taxonomy() {
    let layer = layer_of(&["subclass Dog Animal", "instance Fido Dog"]);
    assert_eq!(edges(&layer, session("t")), edges(&layer, Scope::Base));
    assert_eq!(
        layer.parents_of_scoped(id("Fido"), session("t")),
        layer.parents_of_scoped(id("Fido"), Scope::Base),
    );
    assert!(layer.is_instance_scoped(id("Fido"), session("t")));
}

#[test]
fn a_promoted_root_moves_its_edge_to_the_common_scope() {
    let mut layer = layer_of(&["subclass Dog Animal"]);
    let (sid, _) = assert_root(&mut layer, "subclass Puppy Dog", "s");
    layer.syntactic.promote(sid);
    let out = layer.react(&vec![Event::AxiomsPromoted { sids: vec![sid] }]);
    assert!(matches!(&out[..], [Event::TaxonomyChanged { .. }]));
    assert!(layer.has_ancestor(id("Puppy"), id("Animal")));
    assert!(!layer.tax_session_active(session("s")));
    assert!(same_as_rebuilt(&layer));
}

#[test]
fn a_second_session_takes_hold_of_an_edge() {
    let mut layer = layer_of(&["subclass Dog Animal"]);
    let (sid, _) = assert_root(&mut layer, "subclass Puppy Dog", "s");
    layer.syntactic.add_root(sid, session_id("t"));
    let event = Event::SessionReferenced { session: "t".to_string(), sids: vec![sid] };
    assert_eq!(layer.react(&vec![event]).len(), 1);
    assert!(layer.has_ancestor_scoped(id("Puppy"), id("Animal"), session("t")));
    assert!(same_as_rebuilt(&layer));
    // The first session goes; the edge stays with the second.
    layer.syntactic.retract_session(session_id("s"));
    layer.react(&vec![Event::SessionRetracted { session: "s".to_string() }]);
    assert!(!layer.has_ancestor_scoped(id("Puppy"), id("Animal"), session("s")));
    assert!(layer.has_ancestor_scoped(id("Puppy"), id("Animal"), session("t")));
    assert!(same_as_rebuilt(&layer));
    // So does the second.
    layer.syntactic.retract_session(session_id("t"));
    layer.react(&vec![Event::SessionRetracted { session: "t".to_string() }]);
    assert_eq!(layer.tax.edge_of(sid), None);
    assert!(same_as_rebuilt(&layer));
}

#[test]
fn a_common_edge_needs_no_session() {
    let mut layer = layer_of(&["subclass Dog Animal"]);
    let sid = layer.syntactic.by_head_id(id("subclass"))[0];
    layer.syntactic.add_root(sid, session_id("t"));
    let event = Event::SessionReferenced { session: "t".to_string(), sids: vec![sid] };
    assert!(layer.react(&vec![event]).is_empty());
    assert!(!layer.tax_session_active(session("t")));
}

#[test]
fn a_removed_root_takes_its_edge_along() {
    let mut layer = layer_of(&["subclass Dog Animal", "subclass Cat Animal"]);
    let sid = layer.syntactic.by_head_id(id("subclass"))[0];
    let e = layer.tax.edge_of(sid).unwrap();
    assert_eq!((e.from, e.to, e.rel), (id("Animal"), id("Dog"), TaxRelation::Subclass));
    let sentence = layer.syntactic.sentence(sid).unwrap().clone();
    layer.syntactic.remove_root(sid);
    layer.react(&vec![Event::RelationRemoved { sid, sentence }]);
    assert!(!layer.has_ancestor(id("Dog"), id("Animal")));
    assert!(layer.has_ancestor(id("Cat"), id("Animal")));
    assert!(same_as_rebuilt(&layer));
}

#[test]
fn kept_edges_come_back() {
    let mut layer = layer_of(&["subclass Dog Animal", "instance Fido Dog"]);
    assert_root(&mut layer, "subclass Puppy Dog", "s");
    let kept = layer.tax.snapshot_side();
    assert_eq!(kept.len(), 3);
    let back = SemanticLayer::from_cached_taxonomy(SyntacticLayer::new(), kept);
    for scope in [Scope::Base, session("s"), session("t")] {
        assert_eq!(edges(&back, scope), edges(&layer, scope));
    }
    assert!(back.has_ancestor(id("Fido"), id("Animal")));
    assert!(back.tax_session_active(session("s")));
}

#[test]
fn staged_removals_hide_a_root_from_the_session() {
    let mut layer = layer_of(&["range age Number"]);
    let sid = layer.syntactic.by_head_id(id("range"))[0];
    assert_eq!(layer.range(id("age")), RelationRange::Range(id("Number")));
    layer.syntactic.stage_removal(sid, session_id("s"));
    assert!(!layer.syntactic.seen(sid, session("s")));
    assert!(layer.syntactic.seen(sid, session("t")));
    assert_eq!(layer.range_scoped(id("age"), session("s")), RelationRange::Unknown);
    assert_eq!(layer.range_scoped(id("age"), session("t")), RelationRange::Range(id("Number")));
}

#[test]
fn malformed_edges_are_reported() {
    let roles = Roles::standard();
    let mut store = SyntacticLayer::new();
    let short = flat(&mut store, "subclass Dog");
    match try_extract_edge_from(&roles, 7, &short) {
        Some(Err(SemanticError::ArityMismatch { sid, rel, expected, got })) => {
            assert_eq!((sid, rel.as_str(), expected, got), (7, "subclass", 2, 1));
        }
        other => panic!("{other:?}"),
    }
    let first = flat(&mut store, "instance 3 Number");
    match try_extract_edge_from(&roles, 8, &first) {
        Some(Err(SemanticError::DomainMismatch { sid, rel, arg, domain })) => {
            assert_eq!((sid, rel.as_str(), arg, domain.as_str()), (8, "instance", 0, "Entity"));
        }
        other => panic!("{other:?}"),
    }
    let second = flat(&mut store, "subrelation likes \"knows\"");
    match try_extract_edge_from(&roles, 9, &second) {
        Some(Err(SemanticError::DomainMismatch { rel, arg, .. })) => assert_eq!((rel.as_str(), arg), ("subrelation", 1)),
        other => panic!("{other:?}"),
    }
    let other = flat(&mut store, "likes Dog");
    assert!(try_extract_edge_from(&roles, 1, &other).is_none());
    let variable = flat(&mut store, "instance ?x Dog");
    assert!(matches!(try_extract_edge_from(&roles, 1, &variable), Some(Ok(e)) if e.to == id("x__1")));
}

#[test]
fn a_malformed_root_leaves_a_diagnostic() {
    let mut layer = layer_of(&[]);
    let (_, out) = assert_root(&mut layer, "subAttribute Tall", "s");
    assert!(matches!(&out[..], [Event::Diagnostic(SemanticError::ArityMismatch { expected: 2, got: 1, .. })]));
    assert_eq!(layer.tax.len(), 0);
}

#[test]
fn double_ranges_have_a_code_and_a_text() {
    let e = DoubleRange { sym: "FatherFn".to_string() };
    assert_eq!(e.code(), "E007");
    assert_eq!(e.name(), "double-range");
    assert_eq!(e.message(), "function 'FatherFn' has multiple range declarations");
}

#[test]
fn ancestors_chain() {
    let layer = layer_of(&["subclass A B", "subclass B C", "subclass C D", "instance x A"]);
    assert!(layer.has_ancestor(id("A"), id("C")) && layer.has_ancestor(id("C"), id("D")));
    assert!(layer.has_ancestor(id("A"), id("D")));
    assert!(layer.has_ancestor(id("x"), id("D")));
    assert!(layer.has_ancestor_by_name(id("x"), "D"));
    assert!(!layer.has_ancestor_by_name(id("x"), "nowhere"));
    assert!(!layer.has_ancestor(id("D"), id("A")));
}

#[test]
fn answers_are_remembered_until_an_event_unsettles_them() {
    let mut layer = layer_of(&["subclass Dog Animal"]);
    let mut cache = QueryCache::new();
    assert!(!cache.has_ancestor(&layer, id("Puppy"), id("Animal"), Scope::Base));
    let sid = common(&mut layer.syntactic, "subclass Puppy Dog");
    let out = layer.react(&vec![Event::RelationAdded { sid, head_id: id("subclass") }]);
    assert!(!cache.has_ancestor(&layer, id("Puppy"), id("Animal"), Scope::Base), "still remembered");
    cache.react(&out);
    assert!(cache.has_ancestor(&layer, id("Puppy"), id("Animal"), Scope::Base));
    // A session without edges of its own is answered from the common scope.
    assert!(cache.has_ancestor(&layer, id("Puppy"), id("Animal"), session("t")));
    assert!(cache.is_class(&layer, id("Puppy"), Scope::Base));
    cache.invalidate_semantic_cache();
    assert!(cache.is_class(&layer, id("Puppy"), Scope::Base));
    cache.invalidate_symbols(&vec![id("Puppy")]);
    assert!(!cache.is_instance(&layer, id("Puppy"), Scope::Base));
}

#[test]
fn domains_are_remembered_until_a_declaration_changes() {
    let mut layer = layer_of(&["domain likes 1 Agent"]);
    let mut cache = DomainCache::new();
    let agent = vec![RelationDomain::Domain(id("Agent"))];
    assert_eq!(cache.get(&layer, id("likes"), Scope::Base), agent);
    let sid = common(&mut layer.syntactic, "domain likes 2 Food");
    assert_eq!(cache.get(&layer, id("likes"), Scope::Base), agent, "still remembered");
    let out = cache.react(&layer, &vec![Event::RelationAdded { sid, head_id: id("domain") }]);
    assert!(matches!(&out[..], [Event::DomainRangeChanged { syms }] if syms.contains(&id("likes"))));
    assert_eq!(
        cache.get(&layer, id("likes"), Scope::Base),
        vec![RelationDomain::Domain(id("Agent")), RelationDomain::Domain(id("Food"))],
    );
}

#[test]
fn ranges_are_remembered_until_a_declaration_changes() {
    let mut layer = layer_of(&[]);
    let mut cache = RangeCache::new();
    assert_eq!(cache.get(&layer, id("ageFn"), Scope::Base), RelationRange::Unknown);
    let sid = common(&mut layer.syntactic, "rangeSubclass ageFn Number");
    assert_eq!(cache.get(&layer, id("ageFn"), Scope::Base), RelationRange::Unknown, "still remembered");
    let out = cache.react(&layer, &vec![Event::RelationAdded { sid, head_id: id("rangeSubclass") }]);
    assert!(matches!(&out[..], [Event::DomainRangeChanged { syms }] if syms.contains(&id("ageFn"))));
    let range = cache.get(&layer, id("ageFn"), Scope::Base);
    assert_eq!(range, RelationRange::RangeSubclass(id("Number")));
    assert_eq!(range.id(), Some(id("Number")));
}

#[test]
fn own_declarations_win_and_lists_end_known() {
    let layer = layer_of(&[
        "domain parent 1 Organism",
        "domain parent 3 Place",
        "subrelation mother parent",
        "domain mother 1 Woman",
    ]);
    let d = layer.domain(id("mother"));
    assert_eq!(d[0], RelationDomain::Domain(id("Woman")));
    assert_eq!(d[1], RelationDomain::Unknown);
    assert_eq!(d[2], RelationDomain::Domain(id("Place")));
    assert_eq!(d.len(), 3);
    assert_eq!(layer.domain_declared(id("mother")), vec![RelationDomain::Domain(id("Woman"))]);
    // Without parents there is nothing to inherit.
    assert_eq!(layer.domain(id("parent")), layer.domain_declared(id("parent")));
    assert!(layer.domain(id("unheard")).is_empty());
}

#[test]
fn documentation_is_remembered_and_scoped() {
    let mut layer = layer_of(&["documentation Dog English \"barks\""]);
    let mut cache = DocCache::new();
    assert_eq!(cache.get(&layer, id("Dog"), None, session("s")).len(), 1);
    let sid = root(&mut layer.syntactic, "documentation Dog German \"bellt\"", "s");
    assert_eq!(cache.get(&layer, id("Dog"), None, session("s")).len(), 1, "still remembered");
    cache.react(&layer, &vec![Event::SessionReferenced { session: "s".to_string(), sids: vec![sid] }]);
    assert_eq!(cache.get(&layer, id("Dog"), None, session("s")).len(), 2);
    assert_eq!(cache.get(&layer, id("Dog"), None, Scope::Base).len(), 1);
    assert_eq!(cache.get(&layer, id("Dog"), Some("German"), session("s"))[0].text, "bellt");
    assert_eq!(layer.documentation_any(id("Dog"), None).len(), 2);
    assert_eq!(layer.documentation(id("Dog"), None).len(), 1);
    cache.react(&layer, &vec![Event::OtherRootsChanged]);
    assert_eq!(cache.get(&layer, id("Dog"), None, session("t")).len(), 1);
}

#[test]
fn quotes_come_off_in_pairs() {
    assert_eq!(strip_quotes("\"a b\""), "a b");
    assert_eq!(strip_quotes("\"\""), "");
    assert_eq!(strip_quotes("\""), "\"");
    assert_eq!(strip_quotes("\"open"), "\"open");
    assert_eq!(strip_quotes(""), "");
}

#[test]
fn languages_are_told_apart() {
    let entry = |l: &str| DocEntry { rel: 1, language: l.to_string(), text: "t".to_string() };
    let es = vec![entry("English"), entry("German"), entry("English")];
    assert_eq!(filter_lang(&es, None), es);
    assert_eq!(filter_lang(&es, Some("English")).len(), 2);
    assert!(filter_lang(&es, Some("english")).is_empty());
}

#[test]
fn inferred_classes_are_remembered_until_a_root_touches_them() {
    let mut layer = layer_of(&["subclass Dog Animal", "instance Fido Dog"]);
    let mut cache = InferredCache::new();
    let fido = |c: &mut InferredCache, l: &SemanticLayer| c.get(l, id("Fido"), Scope::Base);
    assert_eq!(fido(&mut cache, &layer), ClassInference::Single(id("Dog")));
    let sid = common(&mut layer.syntactic, "instance Fido Pet");
    assert_eq!(fido(&mut cache, &layer), ClassInference::Single(id("Dog")), "still remembered");
    cache.react(&layer, &vec![Event::RootAdded { sid }]);
    assert!(matches!(fido(&mut cache, &layer), ClassInference::Multiple(cs) if cs.len() == 2));
    assert_eq!(cache.get(&layer, id("Dog"), Scope::Base), ClassInference::Class);
    assert_eq!(cache.get(&layer, id("unheard"), Scope::Base), ClassInference::Unknown);
}

#[test]
fn remembered_classes_stay_where_a_root_says_nothing_of_them() {
    let mut layer = layer_of(&["instance Fido Dog", "domain likes 1 Agent"]);
    let mut cache = InferredCache::new();
    let told = [("Fido", Scope::Base), ("Felix", Scope::Base), ("Fido", session("s")), ("Felix", session("s"))];
    for (name, scope) in told {
        cache.get(&layer, id(name), scope);
    }
    // A root of a relation without declared places leaves all of it.
    let idle = common(&mut layer.syntactic, "documentation Fido Felix");
    cache.react(&layer, &vec![Event::RootAdded { sid: idle }]);
    for (name, scope) in told {
        assert_eq!(cache.memo.peek(scope, id(name)), Some(&layer.infer_class_scoped(id(name), scope)));
    }
    // One of a relation with a declared place touches what stands there alone.
    let sid = common(&mut layer.syntactic, "likes Felix Tom");
    cache.react(&layer, &vec![Event::RootAdded { sid }]);
    assert!(cache.memo.peek(Scope::Base, id("Felix")).is_none());
    assert_eq!(
        cache.memo.peek(Scope::Base, id("Fido")),
        Some(&layer.infer_class_scoped(id("Fido"), Scope::Base)),
    );
    assert_eq!(cache.get(&layer, id("Felix"), Scope::Base), ClassInference::Single(id("Agent")));
    // A session that takes hold of a root is forgotten, the other scopes stay.
    let sid = root(&mut layer.syntactic, "likes Fido Tom", "t");
    layer.syntactic.add_root(sid, session_id("s"));
    cache.react(&layer, &vec![Event::SessionReferenced { session: "s".to_string(), sids: vec![sid] }]);
    assert!(cache.memo.peek(session("s"), id("Fido")).is_none());
    assert_eq!(cache.memo.peek(Scope::Base, id("Fido")), Some(&ClassInference::Single(id("Dog"))));
    assert!(matches!(cache.get(&layer, id("Fido"), session("s")), ClassInference::Multiple(cs) if cs.len() == 2));
    // A change of the taxonomy clears everything.
    cache.react(&layer, &vec![Event::TaxonomyChanged { syms: vec![id("Dog")] }]);
    assert!(cache.memo.peek(Scope::Base, id("Felix")).is_none());
}

#[test]
fn equal_symbols_share_their_classes() {
    let mut store = SyntacticLayer::new();
    common(&mut store, "subclass Dog Animal");
    common(&mut store, "instance Fido Dog");
    for (a, b) in [("Fido", "Rex"), ("Rex", "Bello")] {
        store.intern_symbol(a);
        store.intern_symbol(b);
        let elements =
            vec![Element::Op(OpKind::Equal), Element::Symbol(Symbol::new(a)), Element::Symbol(Symbol::new(b))];
        let sid = store.add_sentence(Sentence { elements }).unwrap();
        store.add_root(sid, session_id("base"));
        store.promote(sid);
    }
    let layer = SemanticLayer::new(store);
    for name in ["Fido", "Rex", "Bello"] {
        assert_eq!(layer.infer_class_scoped(id(name), Scope::Base), ClassInference::Single(id("Dog")));
        let mut same = layer.equality_component(id(name), Scope::Base);
        same.sort();
        let mut all = vec![id("Fido"), id("Rex"), id("Bello")];
        all.sort();
        assert_eq!(same, all);
    }
}

#[test]
fn variable_names_carry_their_formula() {
    assert!(is_variable_name("X__12"));
    assert!(is_variable_name("a__b__0"));
    assert!(!is_variable_name("X__"));
    assert!(!is_variable_name("X_12"));
    assert!(!is_variable_name("X__1a"));
}

#[test]
fn relations_below_are_remembered_with_the_way_up() {
    let mut store = SyntacticLayer::new();
    common(&mut store, "subrelation father parent");
    let mined = rule(&mut store, "parent ?x ?y", "ancestor ?x ?y");
    common(&mut store, "father Adam Kain");
    common(&mut store, "ancestor Kain Henoch");
    let mut layer = SemanticLayer::new(store);
    assert_eq!(mined_edge_of(&layer, mined), Some((id("parent"), id("ancestor"))));
    let mut lattice = LatticeCache::new();
    {
        let w = lattice.get(&layer, id("ancestor"), Scope::Base);
        assert_eq!(w.len(), 3);
        assert_eq!(w.hop(id("ancestor")), None);
        assert_eq!(w.hop(id("parent")), Some((id("ancestor"), Some(mined))));
        assert_eq!(w.hop(id("father")), Some((id("parent"), None)));
    }
    let mut reach = ReachCache::new();
    {
        let e = reach.get(&layer, id("ancestor"), id("Adam"), Scope::Base);
        assert!(e.reach.contains_key(id("Henoch")));
        // Followed back, the edges lead to the start.
        let (kain, _) = e.reach.hop(id("Henoch")).unwrap();
        assert_eq!(kain, id("Kain"));
        assert_eq!(e.reach.hop(kain).map(|h| h.0), Some(id("Adam")));
    }
    let sid = common(&mut layer.syntactic, "ancestor Henoch Irad");
    assert!(!reach.get(&layer, id("ancestor"), id("Adam"), Scope::Base).reach.contains_key(id("Irad")));
    let events = vec![Event::RelationAdded { sid, head_id: id("ancestor") }];
    assert!(trans_reach_dirty(&layer, &events) && !subrel_lattice_dirty(&layer, &events));
    reach.react(&layer, &events);
    assert!(reach.get(&layer, id("ancestor"), id("Adam"), Scope::Base).reach.contains_key(id("Irad")));
    lattice.react(&layer, &vec![Event::OtherRootsChanged]);
    assert_eq!(lattice.get(&layer, id("ancestor"), Scope::Base).len(), 3);
    let another = rule(&mut layer.syntactic, "mother ?x ?y", "parent ?x ?y");
    lattice.react(&layer, &vec![Event::RootAdded { sid: another }]);
    assert_eq!(lattice.get(&layer, id("ancestor"), Scope::Base).len(), 4);
    // The facts of a relation that a rule puts below count from then on.
    common(&mut layer.syntactic, "mother Adam Seth");
    assert!(!reach.get(&layer, id("ancestor"), id("Adam"), Scope::Base).reach.contains_key(id("Seth")));
    let events = vec![Event::RootAdded { sid: another }];
    assert!(trans_reach_dirty(&layer, &events));
    reach.react(&layer, &events);
    assert!(reach.get(&layer, id("ancestor"), id("Adam"), Scope::Base).reach.contains_key(id("Seth")));
    assert!(!reach.get(&layer, id("ancestor"), id("Adam"), Scope::Base).reach.contains_key(id("Adam")));
}

#[test]
fn a_promotion_unsettles_reaches_alone() {
    let mut layer = layer_of(&["parent Adam Kain", "ancestor Kain Henoch"]);
    let store = &mut layer.syntactic;
    let (a, c) = (stored(store, "parent ?x ?y"), stored(store, "ancestor ?x ?y"));
    let elements = vec![Element::Op(OpKind::Implies), Element::Sub(a), Element::Sub(c)];
    let sid = store.add_sentence(Sentence { elements }).unwrap();
    store.add_root(sid, session_id("s"));
    let mut lattice = LatticeCache::new();
    let mut reach = ReachCache::new();
    assert_eq!(lattice.get(&layer, id("ancestor"), Scope::Base).len(), 1);
    assert_eq!(lattice.get(&layer, id("ancestor"), session("s")).len(), 2);
    assert_eq!(reach.get(&layer, id("ancestor"), id("Adam"), Scope::Base).reach.len(), 0);
    layer.syntactic.promote(sid);
    let events = vec![Event::AxiomsPromoted { sids: vec![sid] }];
    assert!(trans_reach_dirty(&layer, &events) && !subrel_lattice_dirty(&layer, &events));
    lattice.react(&layer, &events);
    reach.react(&layer, &events);
    // What was remembered of the lattice stays; what is asked anew sees the rule.
    assert_eq!(lattice.get(&layer, id("ancestor"), Scope::Base).len(), 1);
    assert_eq!(lattice.get(&layer, id("ancestor"), session("t")).len(), 2);
    assert_eq!(reach.get(&layer, id("ancestor"), id("Adam"), Scope::Base).reach.len(), 2);
    lattice.react(&layer, &vec![Event::RootAdded { sid }]);
    assert_eq!(lattice.get(&layer, id("ancestor"), Scope::Base).len(), 2);
}

#[test]
fn a_declared_step_needs_no_rule() {
    let mut store = SyntacticLayer::new();
    let mined = rule(&mut store, "father ?x ?y", "parent ?x ?y");
    let uncle = rule(&mut store, "uncle ?x ?y", "parent ?x ?y");
    common(&mut store, "subrelation father parent");
    let layer = SemanticLayer::new(store);
    assert_eq!(mined_edge_of(&layer, mined), Some((id("father"), id("parent"))));
    let w = layer.subrel_below(id("parent"), Scope::Base);
    assert_eq!(w.len(), 3);
    assert_eq!(w.hop(id("father")), Some((id("parent"), None)), "declared and by rule");
    assert_eq!(w.hop(id("uncle")), Some((id("parent"), Some(uncle))), "by rule alone");
}

#[test]
fn edges_are_counted_for_each_session() {
    let mut layer = layer_of(&["subclass Dog Animal"]);
    let (first, _) = assert_root(&mut layer, "subclass Puppy Dog", "s");
    let (second, _) = assert_root(&mut layer, "subclass Hound Dog", "s");
    assert!(layer.tax.session_active(session("s")));
    // One of two goes: the session keeps an edge of its own.
    let sentence = layer.syntactic.sentence(first).unwrap().clone();
    layer.syntactic.remove_root(first);
    layer.react(&vec![Event::RelationRemoved { sid: first, sentence }]);
    assert!(layer.tax.session_active(session("s")));
    assert_eq!(layer.tax.edge_of(first), None);
    let e = layer.tax.edge_of(second).unwrap();
    assert_eq!((e.from, e.to), (id("Dog"), id("Hound")));
    assert!(same_as_rebuilt(&layer));
    // So does the other, with its session.
    layer.syntactic.retract_session(session_id("s"));
    layer.react(&vec![Event::SessionRetracted { session: "s".to_string() }]);
    assert!(!layer.tax.session_active(session("s")));
    assert_eq!(layer.tax.edge_of(second), None);
    assert!(same_as_rebuilt(&layer));
    // A later one counts again.
    let (third, _) = assert_root(&mut layer, "subclass Hound Dog", "s");
    assert!(layer.tax.session_active(session("s")));
    assert!(layer.tax.edge_of(third).is_some());
    assert!(same_as_rebuilt(&layer));
}

#[test]
fn a_change_reaches_all_that_stands_below_it() {
    let mut layer = layer_of(&["subclass Puppy Dog", "instance Rex Puppy", "instance likes BinaryThing"]);
    let mut cache = QueryCache::new();
    assert!(!cache.has_ancestor(&layer, id("Rex"), id("Animal"), Scope::Base));
    assert!(!cache.is_relation(&layer, id("likes"), Scope::Base));
    assert!(!cache.is_predicate(&layer, id("likes"), Scope::Base));
    let mut added = Vec::new();
    for (child, parent) in [("Dog", "Animal"), ("BinaryThing", "Relation"), ("BinaryThing", "Predicate")] {
        let sid = common(&mut layer.syntactic, &format!("subclass {child} {parent}"));
        added.extend(layer.react(&vec![Event::RelationAdded { sid, head_id: id("subclass") }]));
    }
    // The reports name the ends of the edges alone.
    assert!(added.iter().all(|e| matches!(e, Event::TaxonomyChanged { syms } if !syms.contains(&id("Rex")))));
    cache.react(&added);
    assert!(cache.has_ancestor(&layer, id("Rex"), id("Animal"), Scope::Base));
    assert!(cache.is_relation(&layer, id("likes"), Scope::Base));
    assert!(cache.is_predicate(&layer, id("likes"), Scope::Base));
    // Taken out again, they are forgotten again.
    let sid = layer.syntactic.root_sids()[3];
    let sentence = layer.syntactic.sentence(sid).unwrap().clone();
    layer.syntactic.remove_root(sid);
    let out = layer.react(&vec![Event::RelationRemoved { sid, sentence }]);
    cache.react(&out);
    assert!(!cache.has_ancestor(&layer, id("Rex"), id("Animal"), Scope::Base));
}

#[test]
fn ancestors_are_remembered_one_answer_each() {
    let layer = layer_of(&["subclass Dog Animal"]);
    let mut cache = QueryCache::new();
    assert!(cache.has_ancestor(&layer, id("Dog"), id("Dog"), Scope::Base));
    assert!(cache.has_ancestor.known.is_empty(), "nothing to remember");
    assert!(cache.has_ancestor(&layer, id("Dog"), id("Animal"), session("t")));
    assert_eq!(cache.has_ancestor.peek(Scope::Base, id("Dog"), id("Animal")), Some(true));
    assert_eq!(cache.has_ancestor.peek(session("t"), id("Dog"), id("Animal")), None);
    assert!(cache.has_ancestor(&layer, id("Dog"), id("Animal"), Scope::Base));
    assert_eq!(cache.has_ancestor.known.len(), 1);
    assert!(cache.is_class.peek(Scope::Base, id("Dog")).is_none());
}

#[test]
fn formulas_are_classified_by_what_the_scope_knows() {
    let mut layer = layer_of(&[]);
    assert_root(&mut layer, "subclass Dog Animal", "s");
    let store = &mut layer.syntactic;
    let (a, b) = (stored(store, "instance ?X Dog"), stored(store, "instance ?X Animal"));
    let elements = vec![Element::Op(OpKind::And), Element::Sub(a), Element::Sub(b)];
    let both = store.add_sentence(Sentence { elements }).unwrap();
    let foo = stored(store, "foo ?X");
    let elements = vec![Element::Op(OpKind::Implies), Element::Sub(both), Element::Sub(foo)];
    let root = store.add_sentence(Sentence { elements }).unwrap();
    store.add_root(root, session_id("base"));
    store.promote(root);
    let class = |scope: Scope| {
        let found = layer.classify_formula_scoped(root, scope);
        found.into_iter().find(|(t, _)| *t == id("X__1")).expect("classified").1
    };
    assert_eq!(class(session("s")), ClassInference::Single(id("Dog")));
    // Elsewhere neither class is below the other: both, in the order met.
    assert_eq!(class(Scope::Base), ClassInference::Multiple(vec![id("Dog"), id("Animal")]));
}

#[test]
fn classes_are_listed_once_in_the_order_met() {
    let mut layer = layer_of(&["domain chases 1 Cat", "domain sees 1 Dog"]);
    let store = &mut layer.syntactic;
    let mut subs = Vec::new();
    for words in ["chases ?X ?Y", "instance ?X Bird", "sees ?X ?Y", "chases ?X ?X", "instance ?X Bird"] {
        subs.push(stored(store, words));
    }
    let mut elements = vec![Element::Op(OpKind::And)];
    elements.extend(subs.into_iter().map(Element::Sub));
    let root = store.add_sentence(Sentence { elements }).unwrap();
    store.add_root(root, session_id("base"));
    store.promote(root);
    let found = layer.classify_formula_scoped(root, Scope::Base);
    let of_x: Vec<_> = found.iter().filter(|(t, _)| *t == id("X__1")).collect();
    assert_eq!(of_x.len(), 1, "one entry for each symbol");
    assert_eq!(of_x[0].1, ClassInference::Multiple(vec![id("Cat"), id("Bird"), id("Dog")]));
}

#[test]
fn the_most_specific_classes_keep_their_order() {
    let layer = layer_of(&["subclass Dog Animal", "subclass Cat Animal"]);
    let classes = vec![id("Cat"), id("Animal"), id("Dog"), id("Cat")];
    assert_eq!(
        collapse_classes(&layer, &classes, Scope::Base),
        ClassInference::Multiple(vec![id("Cat"), id("Dog")]),
    );
    assert_eq!(collapse_classes(&layer, &vec![id("Animal"), id("Dog")], Scope::Base), ClassInference::Single(id("Dog")));
}

#[test]
fn a_common_range_overrules_one_of_a_session() {
    let mut layer = layer_of(&["range ageFn Number"]);
    root(&mut layer.syntactic, "range ageFn Text", "s");
    root(&mut layer.syntactic, "range nameFn Text", "s");
    let number = Some(RelationRange::Range(id("Number")));
    assert_eq!(layer.declared_range(id("ageFn"), Scope::Base), number);
    assert_eq!(layer.declared_range(id("ageFn"), session("s")), number);
    assert_eq!(layer.declared_range(id("nameFn"), Scope::Base), None);
    assert_eq!(layer.declared_range(id("nameFn"), session("s")), Some(RelationRange::Range(id("Text"))));
    assert_eq!(layer.declared_range(id("nameFn"), session("t")), None);
}

#[test]
fn a_range_comes_from_a_declaration_alone() {
    let mut layer = layer_of(&["subrelation ageFn numberFn", "range numberFn Number", "range bothFn Number", "rangeSubclass bothFn Text"]);
    // A parent's range is not one of its own.
    assert_eq!(layer.declared_range(id("ageFn"), Scope::Base), None);
    assert_eq!(layer.declared_range(id("numberFn"), Scope::Base), Some(RelationRange::Range(id("Number"))));
    // Two declarations under both heads.
    assert_eq!(layer.declared_range(id("bothFn"), Scope::Base), Some(RelationRange::Unknown));
    common(&mut layer.syntactic, "rangeSubclass ageFn Number");
    assert_eq!(layer.declared_range(id("ageFn"), Scope::Base), Some(RelationRange::RangeSubclass(id("Number"))));
}

#[test]
fn signatures_stay_remembered_where_a_change_is_none_for_the_scope() {
    let mut layer = layer_of(&["domain likes 1 Agent", "range ageFn Number"]);
    let (mut domains, mut ranges) = (DomainCache::new(), RangeCache::new());
    let agent = vec![RelationDomain::Domain(id("Agent"))];
    for scope in [Scope::Base, session("s"), session("t")] {
        assert_eq!(domains.get(&layer, id("likes"), scope), agent);
        assert_eq!(ranges.get(&layer, id("ageFn"), scope), RelationRange::Range(id("Number")));
    }
    let sid = root(&mut layer.syntactic, "domain likes 2 Food", "t");
    layer.syntactic.add_root(sid, session_id("s"));
    let event = Event::SessionReferenced { session: "s".to_string(), sids: vec![sid] };
    domains.react(&layer, &vec![event]);
    assert!(domains.memo.peek(session("s"), id("likes")).is_none());
    assert!(domains.memo.peek(Scope::Base, id("likes")).is_some());
    assert_eq!(domains.get(&layer, id("likes"), session("s")).len(), 2);
    assert_eq!(domains.get(&layer, id("likes"), Scope::Base), layer.domain(id("likes")));
    // A relation put below another inherits from then on.
    let sid = common(&mut layer.syntactic, "subrelation loves likes");
    assert!(domains.get(&layer, id("loves"), Scope::Base).is_empty());
    let events = vec![Event::RelationAdded { sid, head_id: id("subrelation") }];
    layer.react(&events);
    domains.react(&layer, &events);
    ranges.react(&layer, &events);
    assert_eq!(domains.get(&layer, id("loves"), Scope::Base), agent);
    assert!(ranges.memo.peek(Scope::Base, id("ageFn")).is_none());
}

#[test]
fn verdicts_are_asked_for_again_in_their_scope() {
    let mut layer = layer_of(&["subclass Dog Animal"]);
    let base = layer.syntactic.root_sids()[0];
    let mine = root(&mut layer.syntactic, "likes Fido Rex", "s");
    let mut verdicts = Verdicts::new();
    let event = Event::ValidateSession { session: "s".to_string() };
    assert_eq!(verdicts.react(&layer, &vec![event]), vec![(session("s"), mine)]);
    verdicts.record((session("s"), mine), Vec::new());
    verdicts.record((Scope::Base, base), Vec::new());
    verdicts.react(&layer, &vec![Event::SessionRetracted { session: "s".to_string() }]);
    assert!(!verdicts.known(mine, session("s")));
    assert!(verdicts.known(base, Scope::Base));
    // A change clears first, whatever the order in the batch.
    let tasks = verdicts.react(
        &layer,
        &vec![Event::ValidateSentence { sid: mine }, Event::TaxonomyChanged { syms: vec![] }],
    );
    assert_eq!(tasks, vec![(Scope::Base, mine)]);
    assert!(!verdicts.known(base, Scope::Base));
}

#[test]
fn remembered_values_are_kept_by_scope() {
    let mut m: ScopedMemo<u32> = ScopedMemo::new();
    m.put(Scope::Base, 1, 10);
    m.put(session("s"), 1, 11);
    m.put(session("s"), 2, 12);
    assert_eq!(m.peek(Scope::Base, 1), Some(&10));
    assert_eq!(m.peek(session("s"), 1), Some(&11));
    assert_eq!(m.peek(session("t"), 1), None);
    m.forget(session("s"), 1);
    assert_eq!(m.peek(session("s"), 1), None);
    m.put(session("s"), 1, 13);
    m.evict(&vec![1]);
    assert_eq!((m.peek(Scope::Base, 1), m.peek(session("s"), 1)), (None, None));
    assert_eq!(m.peek(session("s"), 2), Some(&12));
    m.drop_scope(session("s"));
    assert_eq!(m.peek(session("s"), 2), None);
    m.put(Scope::Base, 5, 50);
    m.clear();
    assert_eq!(m.peek(Scope::Base, 5), None);
}
