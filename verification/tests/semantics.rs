//! The semantic layer over small ontologies, written as lists and read here.
use sigma_core::docs::DocEntry;
use sigma_core::events::Event;
use sigma_core::inferred::ClassInference;
use sigma_core::query_cache::QueryCache;
use sigma_core::semantic::SemanticLayer;
use sigma_core::signature::{RelationDomain, RelationRange};
use sigma_core::store::{session_id, Element, Scope, Sentence, SyntacticLayer};
use sigma_core::types::{Literal, OpKind, SentenceId, Symbol, SymbolId};
use sigma_core::verdicts::Verdicts;

const BASE: &str = "
    (subclass Relation Entity)
    (subclass BinaryRelation Relation)
    (subclass Predicate Relation)
    (subclass BinaryPredicate Predicate)
    (subclass BinaryPredicate BinaryRelation)
    (instance subclass BinaryRelation)
    (domain subclass 1 Class)
    (domain subclass 2 Class)
    (instance instance BinaryPredicate)
    (domain instance 1 Entity)
    (domain instance 2 Class)
    (subclass Animal Entity)
    (subclass Human Entity)
    (subclass Human Animal)
";

const CLASS_TERMS: &str = "
    (subclass Abstract Entity)
    (subclass Relation Abstract)
    (subclass Function Relation)
    (subclass BinaryFunction Function)
    (subclass Object Entity)
    (subclass Bar Object)
    (subclass Something Bar)
    (instance FooFn BinaryFunction)
    (rangeSubclass FooFn Bar)
    (instance MooFn BinaryFunction)
    (range MooFn (FooFn Something))
    (instance NooFn BinaryFunction)
    (rangeSubclass NooFn (FooFn Something))
";

#[derive(Clone)]
enum Form {
    Word(String),
    Text(String),
    List(Vec<Form>),
}

fn read_forms(text: &str) -> Vec<Form> {
    let cs: Vec<char> = text.chars().collect();
    let mut stack: Vec<Vec<Form>> = vec![Vec::new()];
    let mut i = 0;
    while i < cs.len() {
        let c = cs[i];
        if c == '(' {
            stack.push(Vec::new());
            i += 1;
        } else if c == ')' {
            let done = stack.pop().unwrap();
            stack.last_mut().unwrap().push(Form::List(done));
            i += 1;
        } else if c == '"' {
            let mut j = i + 1;
            while cs[j] != '"' {
                j += 1;
            }
            stack.last_mut().unwrap().push(Form::Text(cs[i..=j].iter().collect()));
            i = j + 1;
        } else if c == ';' {
            while i < cs.len() && cs[i] != '\n' {
                i += 1;
            }
        } else if c.is_whitespace() {
            i += 1;
        } else {
            let mut j = i;
            while j < cs.len() && !cs[j].is_whitespace() && cs[j] != '(' && cs[j] != ')' {
                j += 1;
            }
            stack.last_mut().unwrap().push(Form::Word(cs[i..j].iter().collect()));
            i = j;
        }
    }
    stack.pop().unwrap()
}

fn headed(f: &Form, head: &str) -> bool {
    match f {
        Form::List(fs) => matches!(fs.first(), Some(Form::Word(w)) if w == head),
        _ => false,
    }
}

/// Negations driven inwards past `not`, `and` and `or`.
fn settled(f: &Form) -> Form {
    if let Form::List(fs) = f {
        if headed(f, "not") && fs.len() == 2 {
            if let Form::List(inner) = &fs[1] {
                if headed(&fs[1], "not") && inner.len() == 2 {
                    return settled(&inner[1]);
                }
                let swapped = if headed(&fs[1], "and") {
                    Some("or")
                } else if headed(&fs[1], "or") {
                    Some("and")
                } else {
                    None
                };
                if let Some(op) = swapped {
                    let mut out = vec![Form::Word(op.to_string())];
                    for x in &inner[1..] {
                        out.push(settled(&Form::List(vec![Form::Word("not".to_string()), x.clone()])));
                    }
                    return Form::List(out);
                }
            }
        }
        return Form::List(fs.iter().map(settled).collect());
    }
    f.clone()
}

/// The roots that a form comes to: the parts of a conjunction, and both
/// directions of an equivalence.
fn split(f: &Form) -> Vec<Form> {
    if let Form::List(fs) = f {
        if headed(f, "and") {
            return fs[1..].iter().flat_map(split).collect();
        }
        if headed(f, "<=>") && fs.len() == 3 {
            let arrow = Form::Word("=>".to_string());
            return vec![
                Form::List(vec![arrow.clone(), fs[1].clone(), fs[2].clone()]),
                Form::List(vec![arrow, fs[2].clone(), fs[1].clone()]),
            ];
        }
    }
    vec![f.clone()]
}

fn operator(w: &str) -> Option<OpKind> {
    match w {
        "and" => Some(OpKind::And),
        "or" => Some(OpKind::Or),
        "not" => Some(OpKind::Not),
        "=>" => Some(OpKind::Implies),
        "<=>" => Some(OpKind::Iff),
        "equal" => Some(OpKind::Equal),
        "forall" => Some(OpKind::ForAll),
        "exists" => Some(OpKind::Exists),
        _ => None,
    }
}

fn element(store: &mut SyntacticLayer, f: &Form, tag: usize, at_head: bool) -> Element {
    match f {
        Form::Text(t) => Element::Literal(Literal::Str(t.clone())),
        Form::List(_) => Element::Sub(sentence(store, f, tag)),
        Form::Word(w) => {
            if at_head {
                if let Some(op) = operator(w) {
                    return Element::Op(op);
                }
            }
            if w.starts_with('?') || w.starts_with('@') {
                let name = format!("{}__{}", &w[1..], tag);
                let id = store.intern_symbol(&name);
                return Element::Variable { id, name, is_row: w.starts_with('@') };
            }
            if w.starts_with(|c: char| c.is_ascii_digit()) {
                return Element::Literal(Literal::Number(w.clone()));
            }
            store.intern_symbol(w);
            Element::Symbol(Symbol::new(w))
        }
    }
}

fn sentence(store: &mut SyntacticLayer, f: &Form, tag: usize) -> SentenceId {
    let fs = match f {
        Form::List(fs) => fs,
        _ => panic!("a sentence is a list"),
    };
    let mut elements = Vec::new();
    for (i, x) in fs.iter().enumerate() {
        elements.push(element(store, x, tag, i == 0));
    }
    store.add_sentence(Sentence { elements }).expect("parts are stored first")
}

/// Reads the forms as they stand into roots of the session.
fn load_plain(store: &mut SyntacticLayer, forms: &[Form], session: &str) -> Vec<SentenceId> {
    let mut roots = Vec::new();
    for f in forms {
        let tag = store.root_sids().len() + 1;
        let sid = sentence(store, f, tag);
        store.add_root(sid, session_id(session));
        roots.push(sid);
    }
    roots
}

/// Reads a text into promoted roots.
fn load(store: &mut SyntacticLayer, text: &str, session: &str) -> Vec<SentenceId> {
    let forms: Vec<Form> = read_forms(text).iter().map(settled).collect::<Vec<_>>().iter().flat_map(split).collect();
    let roots = load_plain(store, &forms, session);
    for sid in &roots {
        store.promote(*sid);
    }
    roots
}

fn kif_layer(text: &str) -> SemanticLayer {
    let mut store = SyntacticLayer::new();
    load(&mut store, text, "base");
    SemanticLayer::new(store)
}

fn base_layer() -> SemanticLayer {
    kif_layer(BASE)
}

fn by_head(layer: &SemanticLayer, head: &str) -> Vec<SentenceId> {
    layer.syntactic.by_head_id(layer.syntactic.sym_id(head).unwrap())
}

fn ids(layer: &SemanticLayer, names: &[&str]) -> Vec<SymbolId> {
    names.iter().map(|n| layer.syntactic.sym_id(n).unwrap()).collect()
}

fn class_in(layer: &SemanticLayer, root: SentenceId, sym: SymbolId) -> Option<ClassInference> {
    for (s, c) in layer.classify_formula_scoped(root, Scope::Base) {
        if s == sym {
            return Some(c);
        }
    }
    None
}


#[test]
fn arity_binary_relation_is_2() {
    let layer = kif_layer("
        (subclass Relation Entity)
        (subclass BinaryRelation Relation)
        (instance likes BinaryRelation)
    ");
    let likes = layer.syntactic.sym_id("likes").unwrap();
    assert_eq!(layer.arity(likes), Some(2));
}

#[test]
fn arity_ternary_relation_is_3() {
    let layer = kif_layer("
        (subclass Relation Entity)
        (subclass TernaryRelation Relation)
        (instance between TernaryRelation)
    ");
    let between = layer.syntactic.sym_id("between").unwrap();
    assert_eq!(layer.arity(between), Some(3));
}

#[test]
fn arity_unary_function_is_1() {
    // UnaryFunction is a subclass of both Function and BinaryRelation (n=2).
    // Because it is a Function the adjustment applies: arity = 2 - 1 = 1.
    let layer = kif_layer("
        (subclass Relation Entity)
        (subclass BinaryRelation Relation)
        (subclass Function Relation)
        (subclass UnaryFunction Function)
        (subclass UnaryFunction BinaryRelation)
        (instance successor UnaryFunction)
    ");
    let successor = layer.syntactic.sym_id("successor").unwrap();
    assert_eq!(layer.arity(successor), Some(1));
}

#[test]
fn arity_none_for_non_relation() {
    let layer = kif_layer("(subclass Dog Animal)");
    let dog = layer.syntactic.sym_id("Dog").unwrap();
    assert_eq!(layer.arity(dog), None);
}

#[test]
fn documentation_single_entry() {
    let layer = kif_layer(r#"
        (documentation Animal EnglishLanguage "A living organism.")
    "#);
    let animal = layer.syntactic.sym_id("Animal").unwrap();
    assert_eq!(layer.documentation(animal, None), vec![DocEntry {
        rel: Symbol::hash_name("documentation"),
        language: "EnglishLanguage".into(),
        text:     "A living organism.".into(),
    }]);
}

#[test]
fn documentation_language_filter() {
    let layer = kif_layer(r#"
        (documentation Animal EnglishLanguage "A living organism.")
        (documentation Animal GermanLanguage "Ein Lebewesen.")
    "#);
    let animal = layer.syntactic.sym_id("Animal").unwrap();
    assert_eq!(layer.documentation(animal, None).len(), 2);
    let german = layer.documentation(animal, Some("GermanLanguage"));
    assert_eq!(german.len(), 1);
    assert_eq!(german[0].text, "Ein Lebewesen.");
    assert!(layer.documentation(animal, Some("FrenchLanguage")).is_empty());
}

#[test]
fn format_entry_flipped_layout() {
    let layer = kif_layer(r#"
        (format EnglishLanguage instance "%1 is an instance of %2")
    "#);
    let instance = layer.syntactic.sym_id("instance").unwrap();
    assert_eq!(layer.documentation(instance, None), vec![DocEntry {
        rel:      Symbol::hash_name("format"),
        language: "EnglishLanguage".into(),
        text:     "%1 is an instance of %2".into(),
    }]);
}

#[test]
fn term_format_entry_flipped_layout() {
    let layer = kif_layer(r#"
        (termFormat EnglishLanguage Entity "entity")
    "#);
    let entity = layer.syntactic.sym_id("Entity").unwrap();
    assert_eq!(layer.documentation(entity, None), vec![DocEntry {
        rel:      Symbol::hash_name("termFormat"),
        language: "EnglishLanguage".into(),
        text:     "entity".into(),
    }]);
}

#[test]
fn collects_across_all_doc_relations() {
    let layer = kif_layer(r#"
        (documentation Entity EnglishLanguage "The root class.")
        (termFormat EnglishLanguage Entity "entity")
        (format EnglishLanguage Entity "%1 entity")
    "#);
    let entity = layer.syntactic.sym_id("Entity").unwrap();
    let entries = layer.documentation(entity, None);
    assert_eq!(entries.len(), 3, "one entry per doc relation");

    let by_rel = |rel: u64| entries.iter().find(|e| e.rel == rel);
    assert_eq!(by_rel(Symbol::hash_name("documentation")).map(|e| e.text.as_str()),  Some("The root class."));
    assert_eq!(by_rel(Symbol::hash_name("termFormat")).map(|e| e.text.as_str()), Some("entity"));
    assert_eq!(by_rel(Symbol::hash_name("format")).map(|e| e.text.as_str()), Some("%1 entity"));
}

#[test]
fn term_format_returns_entry() {
    // termFormat has arg order: (termFormat lang sym text)
    let layer = kif_layer(r#"(termFormat EnglishLanguage Animal "animal")"#);
    let animal = layer.syntactic.sym_id("Animal").unwrap();
    assert_eq!(
        layer.term_format(animal, Some("EnglishLanguage")),
        vec![DocEntry { rel: Symbol::hash_name("termFormat"), language: "EnglishLanguage".into(), text: "animal".into() }],
    );
}

#[test]
fn term_format_language_filter() {
    let layer = kif_layer(r#"
        (termFormat EnglishLanguage Animal "animal")
        (termFormat GermanLanguage Animal "Tier")
    "#);
    let animal = layer.syntactic.sym_id("Animal").unwrap();
    assert_eq!(layer.term_format(animal, None).len(), 2);
    assert_eq!(layer.term_format(animal, Some("GermanLanguage")).len(), 1);
    assert!(layer.term_format(animal, Some("FrenchLanguage")).is_empty());
}

#[test]
fn has_ancestor_true_for_same_symbol() {
    let layer = base_layer();
    let human = layer.syntactic.sym_id("Human").unwrap();
    assert!(
        layer.has_ancestor(human, human),
        "every symbol is its own ancestor (short-circuit)"
    );
}

#[test]
fn has_ancestor_true_for_chain() {
    let layer = kif_layer(
        "
        (subclass Dog Animal)
        (instance Rex Dog)
    ",
    );
    let rex = layer.syntactic.sym_id("Rex").unwrap();
    let animal = layer.syntactic.sym_id("Animal").unwrap();
    assert!(layer.has_ancestor(rex, animal));
}

#[test]
fn has_ancestor_false_for_sibling() {
    let layer = kif_layer(
        "
        (subclass Dog Animal)
        (subclass Cat Animal)
    ",
    );
    let dog = layer.syntactic.sym_id("Dog").unwrap();
    let cat = layer.syntactic.sym_id("Cat").unwrap();
    assert!(!layer.has_ancestor(dog, cat));
}

#[test]
fn is_class_true_for_subclass_only_target() {
    let layer = base_layer();
    let animal = layer.syntactic.sym_id("Animal").unwrap();
    assert!(layer.is_class(animal));
}

#[test]
fn is_class_false_when_has_instance_edge() {
    let layer = base_layer();
    let sub = layer.syntactic.sym_id("subclass").unwrap();
    assert!(!layer.is_class(sub));
}

#[test]
fn is_class_true_for_instance_of_class_subclass() {
    let layer = kif_layer(
        "
        (subclass SetOrClass Class)
        (instance Elephant SetOrClass)
        (instance Entity Class)
    ",
    );
    let elephant = layer.syntactic.sym_id("Elephant").unwrap();
    let entity = layer.syntactic.sym_id("Entity").unwrap();
    assert!(layer.is_class(elephant));
    assert!(layer.is_class(entity));
}

#[test]
fn is_class_false_for_instance_of_a_class_instance() {
    let layer = kif_layer(
        "
        (subclass SetOrClass Class)
        (instance Dog SetOrClass)
        (instance Rex Dog)
        (instance Fido Animal)
    ",
    );
    let rex = layer.syntactic.sym_id("Rex").unwrap();
    let fido = layer.syntactic.sym_id("Fido").unwrap();
    assert!(!layer.is_class(rex));
    assert!(!layer.is_class(fido));
}

#[test]
fn is_class_true_for_symbol_with_no_incoming_edges() {
    // Bar has no incoming edges at all — treated as a class (root symbol).
    let layer = kif_layer("(subclass Foo Bar)");
    let bar = layer.syntactic.sym_id("Bar").unwrap();
    assert!(layer.is_class(bar));
}

#[test]
fn is_function_true() {
    let layer = kif_layer("
        (subclass Relation Entity)
        (subclass BinaryRelation Relation)
        (subclass Function Relation)
        (subclass UnaryFunction Function)
        (subclass UnaryFunction BinaryRelation)
        (instance successor UnaryFunction)
    ");
    let successor = layer.syntactic.sym_id("successor").unwrap();
    assert!(layer.is_function(successor));
}

#[test]
fn is_function_false_for_predicate() {
    let layer = base_layer();
    let inst = layer.syntactic.sym_id("instance").unwrap();
    assert!(!layer.is_function(inst));
}

#[test]
fn is_instance_true_when_declared() {
    let layer = base_layer();
    let sub = layer.syntactic.sym_id("subclass").unwrap();
    assert!(layer.is_instance(sub));
}

#[test]
fn is_instance_false_for_pure_subclass_target() {
    let layer = base_layer();
    let human = layer.syntactic.sym_id("Human").unwrap();
    assert!(!layer.is_instance(human));
}

#[test]
fn is_instance_false_for_root_class() {
    let layer = base_layer();
    let entity = layer.syntactic.sym_id("Entity").unwrap();
    assert!(!layer.is_instance(entity));
}

#[test]
fn is_instance_true_via_subrelation_chain() {
    // If `ancestorOf` is declared as an instance and `parentOf` is a
    // subrelation of `ancestorOf`, the algorithm walks the Subrelation edge
    // upward and finds the Instance edge — so `parentOf` is also an instance.
    let layer = kif_layer(
        "
        (instance ancestorOf BinaryRelation)
        (subrelation parentOf ancestorOf)
    ",
    );
    let parent_of = layer.syntactic.sym_id("parentOf").unwrap();
    let ancestor_of = layer.syntactic.sym_id("ancestorOf").unwrap();
    assert!(
        layer.is_instance(ancestor_of),
        "direct instance declaration"
    );
    assert!(
        layer.is_instance(parent_of),
        "parentOf inherits is_instance via subrelation chain to ancestorOf"
    );
}

#[test]
fn is_predicate_true() {
    let layer = base_layer();
    let inst = layer.syntactic.sym_id("instance").unwrap();
    assert!(layer.is_predicate(inst));
}

#[test]
fn is_predicate_false_for_relation_without_predicate_ancestor() {
    // `subclass` is a BinaryRelation but has no path to Predicate in base.
    let layer = base_layer();
    let sub = layer.syntactic.sym_id("subclass").unwrap();
    assert!(!layer.is_predicate(sub));
}

#[test]
fn is_relation_true_for_declared_relation() {
    let layer = base_layer();
    let sub = layer.syntactic.sym_id("subclass").unwrap();
    assert!(layer.is_relation(sub));
}

#[test]
fn is_relation_false_for_class_symbol() {
    let layer = base_layer();
    let entity = layer.syntactic.sym_id("Entity").unwrap();
    assert!(!layer.is_relation(entity));
}

#[test]
fn is_relation_false_when_no_relation_ancestor() {
    let layer = kif_layer(
        "
        (instance Fido Dog)
        (subclass Dog Animal)
    ",
    );
    let fido = layer.syntactic.sym_id("Fido").unwrap();
    assert!(!layer.is_relation(fido));
}

#[test]
fn domain_two_positions() {
    let layer = kif_layer(
        "
        (domain likes 1 Animal)
        (domain likes 2 Animal)
    ",
    );
    let likes = layer.syntactic.sym_id("likes").unwrap();
    let animal = layer.syntactic.sym_id("Animal").unwrap();
    let d = layer.domain(likes);
    assert_eq!(d.len(), 2);
    assert!(matches!(&d[0], RelationDomain::Domain(id) if *id == animal));
    assert!(matches!(&d[1], RelationDomain::Domain(id) if *id == animal));
}

#[test]
fn domain_subclass_variant() {
    let layer = kif_layer("(domainSubclass subclassOf 1 Class)");
    let rel = layer.syntactic.sym_id("subclassOf").unwrap();
    let class = layer.syntactic.sym_id("Class").unwrap();
    let d = layer.domain(rel);
    assert_eq!(d.len(), 1);
    assert!(matches!(&d[0], RelationDomain::DomainSubclass(id) if *id == class));
}

#[test]
fn domain_out_of_order_axioms_sorted_by_position() {
    let layer = kif_layer(
        "
        (domain myRel 2 ClassB)
        (domain myRel 1 ClassA)
    ",
    );
    let rel = layer.syntactic.sym_id("myRel").unwrap();
    let class_a = layer.syntactic.sym_id("ClassA").unwrap();
    let class_b = layer.syntactic.sym_id("ClassB").unwrap();
    let d = layer.domain(rel);
    assert_eq!(d.len(), 2);
    assert!(
        matches!(&d[0], RelationDomain::Domain(id) if *id == class_a),
        "position 1 (ClassA) must be first regardless of declaration order"
    );
    assert!(
        matches!(&d[1], RelationDomain::Domain(id) if *id == class_b),
        "position 2 (ClassB) must be second"
    );
}

#[test]
fn domain_gap_is_unknown() {
    // Only position 2 declared → position 1 is an `Unknown` gap.
    let layer = kif_layer("(domain sparse 2 Animal)");
    let rel = layer.syntactic.sym_id("sparse").unwrap();
    let animal = layer.syntactic.sym_id("Animal").unwrap();
    let d = layer.domain(rel);
    assert_eq!(d.len(), 2);
    assert!(matches!(&d[0], RelationDomain::Unknown));
    assert!(matches!(&d[1], RelationDomain::Domain(id) if *id == animal));
}

#[test]
fn domain_empty_when_no_axiom() {
    let layer = kif_layer("(subclass Foo Bar)");
    let foo = layer.syntactic.sym_id("Foo").unwrap();
    assert!(layer.domain(foo).is_empty());
}

#[test]
fn subrelation_inherits_undeclared_positions() {
    let layer = kif_layer(
        "
        (domain parent 1 Human)
        (domain parent 2 Human)
        (subrelation mother parent)
    ",
    );
    let [mother, human] = ids(&layer, &["mother", "Human"])[..] else {
        unreachable!()
    };
    let d = layer.domain(mother);
    assert_eq!(d.len(), 2, "got {d:?}");
    assert!(matches!(&d[0], RelationDomain::Domain(id) if *id == human));
    assert!(matches!(&d[1], RelationDomain::Domain(id) if *id == human));
}

#[test]
fn own_declaration_narrows_a_slot_and_inherits_the_rest() {
    let layer = kif_layer(
        "
        (domain parent 1 Human)
        (domain parent 2 Human)
        (subrelation mother parent)
        (domain mother 1 Woman)
    ",
    );
    let [mother, human, woman] = ids(&layer, &["mother", "Human", "Woman"])[..] else {
        unreachable!()
    };
    let d = layer.domain(mother);
    assert_eq!(d.len(), 2, "got {d:?}");
    assert!(
        matches!(&d[0], RelationDomain::Domain(id) if *id == woman),
        "own `Woman` must win over inherited `Human` at position 1; got {d:?}"
    );
    assert!(matches!(&d[1], RelationDomain::Domain(id) if *id == human));
}

#[test]
fn inheritance_follows_a_multi_level_chain() {
    let layer = kif_layer(
        "
        (domain related 1 Entity)
        (domain related 2 Entity)
        (subrelation parent related)
        (domain parent 2 Human)
        (subrelation mother parent)
    ",
    );
    let [mother, entity, human] = ids(&layer, &["mother", "Entity", "Human"])[..] else {
        unreachable!()
    };
    let d = layer.domain(mother);
    assert_eq!(d.len(), 2, "got {d:?}");
    assert!(matches!(&d[0], RelationDomain::Domain(id) if *id == entity));
    assert!(matches!(&d[1], RelationDomain::Domain(id) if *id == human));
}

#[test]
fn domain_subclass_positions_are_inherited_as_declared() {
    let layer = kif_layer(
        "
        (domainSubclass typedBy 1 Class)
        (subrelation strictlyTypedBy typedBy)
    ",
    );
    let [sub, class] = ids(&layer, &["strictlyTypedBy", "Class"])[..] else {
        unreachable!()
    };
    let d = layer.domain(sub);
    assert!(
        matches!(d.first(), Some(RelationDomain::DomainSubclass(id)) if *id == class),
        "got {d:?}"
    );
}

#[test]
fn subrelation_cycle_yields_no_signature_without_panicking() {
    let layer = kif_layer(
        "
        (subrelation a b)
        (subrelation b a)
    ",
    );
    let [a, b] = ids(&layer, &["a", "b"])[..] else {
        unreachable!()
    };
    assert!(layer.domain(a).is_empty());
    assert!(layer.domain(b).is_empty());
}

#[test]
fn unrelated_taxonomy_edges_do_not_inherit() {
    // `subclass`/`instance` parents are not subrelation parents.
    let layer = kif_layer(
        "
        (domain parent 1 Human)
        (instance mother parent)
        (subclass father parent)
    ",
    );
    let [mother, father] = ids(&layer, &["mother", "father"])[..] else {
        unreachable!()
    };
    assert!(layer.domain(mother).is_empty());
    assert!(layer.domain(father).is_empty());
}

#[test]
fn range_domain_variant() {
    let layer = kif_layer("(range parent Human)");
    let parent = layer.syntactic.sym_id("parent").unwrap();
    let human_id = layer.syntactic.sym_id("Human").unwrap();
    match layer.range(parent) {
        RelationRange::Range(id) => assert_eq!(id, human_id),
        other => panic!("expected Domain(Human), got {other:?}"),
    }
}

#[test]
fn range_domain_subclass_variant() {
    let layer = kif_layer("(rangeSubclass powerSet Class)");
    let power_set = layer.syntactic.sym_id("powerSet").unwrap();
    let class_id = layer.syntactic.sym_id("Class").unwrap();
    match layer.range(power_set) {
        RelationRange::RangeSubclass(id) => assert_eq!(id, class_id),
        other => panic!("expected DomainSubclass(Class), got {other:?}"),
    }
}

#[test]
fn range_none_when_no_axiom() {
    let layer = kif_layer("(subclass Foo Bar)");
    let foo = layer.syntactic.sym_id("Foo").unwrap();
    assert!(matches!(layer.range(foo), RelationRange::Unknown));
}

#[test]
fn range_slot_resolves_a_range_subclass_function_term() {
    let layer = kif_layer(CLASS_TERMS);
    let moo = layer.syntactic.sym_id("MooFn").unwrap();
    let bar = layer.syntactic.sym_id("Bar").unwrap();
    assert!(
        matches!(layer.range_scoped(moo, Scope::Base), RelationRange::Range(id) if id == bar),
        "`(range MooFn (FooFn Something))` with `(rangeSubclass FooFn Bar)` \
         should give MooFn the range Bar"
    );
}

#[test]
fn range_subclass_slot_resolves_a_range_subclass_function_term() {
    let layer = kif_layer(CLASS_TERMS);
    let noo = layer.syntactic.sym_id("NooFn").unwrap();
    let bar = layer.syntactic.sym_id("Bar").unwrap();
    assert!(matches!(
        layer.range_scoped(noo, Scope::Base),
        RelationRange::RangeSubclass(id) if id == bar
    ));
}

#[test]
fn self_referential_range_declaration_does_not_recurse() {
    let layer = kif_layer(
        "
        (subclass Abstract Entity)
        (subclass Relation Abstract)
        (subclass Function Relation)
        (instance FooFn Function)
        (range FooFn (FooFn Something))
    ",
    );
    let foo = layer.syntactic.sym_id("FooFn").unwrap();
    assert!(
        matches!(layer.range_scoped(foo, Scope::Base), RelationRange::Unknown),
        "the cycle sentinel should stand in rather than recursing"
    );
}

#[test]
fn subfunction_inherits_an_undeclared_range() {
    let layer = kif_layer(
        "
        (range AgeFn Quantity)
        (subrelation YearsOldFn AgeFn)
    ",
    );
    let sub = layer.syntactic.sym_id("YearsOldFn").unwrap();
    let quantity = layer.syntactic.sym_id("Quantity").unwrap();
    assert!(
        matches!(layer.range(sub), RelationRange::Range(id) if id == quantity),
        "got {:?}",
        layer.range(sub)
    );
}

#[test]
fn own_range_wins_over_the_inherited_one() {
    let layer = kif_layer(
        "
        (range AgeFn Quantity)
        (subrelation YearsOldFn AgeFn)
        (range YearsOldFn Integer)
    ",
    );
    let sub = layer.syntactic.sym_id("YearsOldFn").unwrap();
    let integer = layer.syntactic.sym_id("Integer").unwrap();
    assert!(matches!(layer.range(sub), RelationRange::Range(id) if id == integer));
}

#[test]
fn range_subclass_is_inherited_as_declared_through_a_chain() {
    let layer = kif_layer(
        "
        (rangeSubclass KindFn Class)
        (subrelation MidFn KindFn)
        (subrelation LeafFn MidFn)
    ",
    );
    let leaf = layer.syntactic.sym_id("LeafFn").unwrap();
    let class = layer.syntactic.sym_id("Class").unwrap();
    assert!(matches!(layer.range(leaf), RelationRange::RangeSubclass(id) if id == class));
}

#[test]
fn subrelation_cycle_is_unknown_without_panicking() {
    let layer = kif_layer(
        "
        (subrelation a b)
        (subrelation b a)
    ",
    );
    let a = layer.syntactic.sym_id("a").unwrap();
    assert!(matches!(layer.range(a), RelationRange::Unknown));
}

#[test]
fn classify_formula_infers_variable_classes() {
    // The motivating case: `?X` is an Animal (instance guard) and `?M` is a
    // Mother (`mother`'s arg-1 domain), both embedded in a rule.
    let l = kif_layer("
        (domain mother 1 Mother)
        (domain mother 2 Animal)
        (subclass Mother Animal)
        (=> (instance ?X Animal) (exists (?M) (mother ?M ?X)))
    ");
    let animal = l.syntactic.sym_id("Animal").unwrap();
    let mother = l.syntactic.sym_id("Mother").unwrap();

    // The rule is the only operator-headed root.
    let root = l.syntactic.root_sids().into_iter()
        .find(|&sid| l.syntactic.sentence(sid).map(|s| s.is_operator()).unwrap_or(false))
        .expect("implication root");

    let classes = l.classify_formula_scoped(root, Scope::Base);
    // Exactly the two bound variables get classified (Animal / Mother values
    // and the relation heads are not argument targets).
    assert_eq!(classes.len(), 2, "both variables classified, got {classes:?}");

    let mut saw_animal = false;
    let mut saw_mother = false;
    for (_, sc) in &classes {
        match sc {
            ClassInference::Single(id) if *id == animal => saw_animal = true,
            ClassInference::Single(id) if *id == mother => saw_mother = true,
            other => panic!("unexpected class {other:?}"),
        }
    }
    assert!(saw_animal, "?X should resolve to Animal");
    assert!(saw_mother, "?M should resolve to Mother");
}

#[test]
fn classify_formula_global_scope_for_ground_atoms() {
    // Ground root atoms classify their arguments at *Global* scope (and a
    // constant's taxonomy class falls out via the fold-in).
    let l = kif_layer("
        (subclass Human Animal)
        (instance Bob Human)
        (domain mother 1 Mother)
        (mother Mary Jesus)
    ");
    let human    = l.syntactic.sym_id("Human").unwrap();
    let bob      = l.syntactic.sym_id("Bob").unwrap();
    let mother_c = l.syntactic.sym_id("Mother").unwrap();
    let mary     = l.syntactic.sym_id("Mary").unwrap();

    // (instance Bob Human) → Bob : Human, Global.
    let inst_root = by_head(&l, "instance")[0];
    let bsc = class_in(&l, inst_root, bob).expect("Bob classified");
    assert!(matches!(&bsc, ClassInference::Single(id) if *id == human));

    // (mother Mary Jesus) → Mary : Mother (mother's arg-1 domain), Global.
    let m_root = by_head(&l, "mother")[0];
    let msc = class_in(&l, m_root, mary).expect("Mary classified");
    assert!(matches!(&msc, ClassInference::Single(id) if *id == mother_c));
}

#[test]
fn classify_formula_equality_takes_function_range() {
    // (equal Joseph (FatherOfFn Jesus)) → Joseph takes FatherOfFn's range.
    let l = kif_layer("
        (range FatherOfFn Man)
        (domain FatherOfFn 1 Human)
        (equal Joseph (FatherOfFn Jesus))
    ");
    let man    = l.syntactic.sym_id("Man").unwrap();
    let joseph = l.syntactic.sym_id("Joseph").unwrap();

    let root = l.syntactic.root_sids().into_iter()
        .find(|&sid| l.syntactic.sentence(sid)
            .and_then(|s| s.op())
            .map(|o| matches!(o, OpKind::Equal)).unwrap_or(false))
        .expect("equality root");

    let jsc = class_in(&l, root, joseph).expect("Joseph classified");
    assert!(matches!(&jsc, ClassInference::Single(id) if *id == man),
        "Joseph = (FatherOfFn …) takes range Man, got {:?}", jsc);
}

#[test]
fn classify_formula_symbol_equality_propagates_class() {
    // `(equal GeorgeWashington FirstPresident)` — `FirstPresident` inherits
    // whatever `GeorgeWashington` already is.
    let l = kif_layer("
        (subclass Human Entity)
        (instance GeorgeWashington Human)
        (equal GeorgeWashington FirstPresident)
    ");
    let human = l.syntactic.sym_id("Human").unwrap();
    let gw    = l.syntactic.sym_id("GeorgeWashington").unwrap();
    let fp    = l.syntactic.sym_id("FirstPresident").unwrap();

    let root = l.syntactic.root_sids().into_iter()
        .find(|&sid| l.syntactic.sentence(sid)
            .and_then(|s| s.op())
            .map(|o| matches!(o, OpKind::Equal)).unwrap_or(false))
        .expect("equality root");

    let fp_sc = class_in(&l, root, fp).expect("FirstPresident classified");
    assert!(matches!(&fp_sc, ClassInference::Single(id) if *id == human),
        "FirstPresident inherits GeorgeWashington's class, got {:?}", fp_sc);
    // …and it equals GeorgeWashington's own inferred class.
    assert!(matches!(l.infer_class_scoped(gw, Scope::Base), ClassInference::Single(id) if id == human));
}

#[test]
fn classify_formula_skips_negated_atoms() {
    // `?X` is positively constrained to Foo, but the `(not (instance ?X Bar))`
    // guard must NOT classify it as Bar.
    let l = kif_layer("
        (subclass Foo Entity)
        (subclass Bar Entity)
        (=> (and (instance ?X Foo) (not (instance ?X Bar))) (baz ?X))
    ");
    let foo = l.syntactic.sym_id("Foo").unwrap();

    let root = l.syntactic.root_sids().into_iter()
        .find(|&sid| l.syntactic.sentence(sid).map(|s| s.is_operator()).unwrap_or(false))
        .expect("implication root");

    let classes = l.classify_formula_scoped(root, Scope::Base);
    assert_eq!(classes.len(), 1, "only ?X is classified (Bar is negated), got {classes:?}");
    let sc = &classes[0].1;
    assert!(matches!(sc, ClassInference::Single(id) if *id == foo),
        "?X should be Foo only, got {:?}", sc);
}

#[test]
fn infer_class_sees_through_double_negation() {
    // `(not (not (instance ?X Foo)))` is cancelled at ingest, so the atom is
    // positive again and ?X classifies as Foo.
    let l = kif_layer("
        (subclass Foo Entity)
        (=> (not (not (instance ?X Foo))) (bar ?X))
    ");
    let foo  = l.syntactic.sym_id("Foo").unwrap();
    let root = l.syntactic.root_sids().into_iter()
        .find(|&sid| !l.syntactic.sentence_vars(sid).is_empty())
        .expect("a root with variables");
    let x = l.syntactic.sentence_vars(root)[0];
    assert!(matches!(l.infer_class_scoped(x, Scope::Base), ClassInference::Single(id) if id == foo),
        "double-negated instance → ?X : Foo, got {:?}", l.infer_class_scoped(x, Scope::Base));
}

#[test]
fn infer_class_drops_singly_negated_instance() {
    // ?X is positively Bar; the `(not (instance ?X Foo))` guard must not type
    // it Foo.
    let l = kif_layer("
        (subclass Foo Entity)
        (subclass Bar Entity)
        (=> (and (instance ?X Bar) (not (instance ?X Foo))) (baz ?X))
    ");
    let bar  = l.syntactic.sym_id("Bar").unwrap();
    let root = l.syntactic.root_sids().into_iter()
        .find(|&sid| !l.syntactic.sentence_vars(sid).is_empty())
        .expect("a root with variables");
    let x = l.syntactic.sentence_vars(root)[0];
    assert!(matches!(l.infer_class_scoped(x, Scope::Base), ClassInference::Single(id) if id == bar),
        "?X should be Bar only (Foo is negated), got {:?}", l.infer_class_scoped(x, Scope::Base));
}

#[test]
fn infer_class_not_and_yields_unknown() {
    // (not (and (instance ?X Foo) (instance ?X Bar))) ≡ (or (not Foo) (not Bar)):
    // neither class is asserted, so ?X is Unknown.  De Morgan drives the `not`
    // onto each atom, and the direct-`(not <atom>)` guard then drops both.
    let l = kif_layer("
        (subclass Foo Entity)
        (subclass Bar Entity)
        (=> (not (and (instance ?X Foo) (instance ?X Bar))) (baz ?X))
    ");
    // Check every variable across the (CAF-split) roots — none may be classified.
    let mut checked = 0;
    for root in l.syntactic.root_sids().into_iter() {
        for x in l.syntactic.sentence_vars(root) {
            assert!(matches!(l.infer_class_scoped(x, Scope::Base), ClassInference::Unknown),
                "?X under (not (and …)) must be Unknown, got {:?}", l.infer_class_scoped(x, Scope::Base));
            checked += 1;
        }
    }
    assert!(checked > 0, "expected at least one variable to check");
}

#[test]
fn infer_class_equality_is_order_independent() {
    // (equal A B), A is a Human.  infer_class(B) must be Human whether B is
    // asked about before or after A — the equality component resolves the
    // same regardless of evaluation order.
    let mk = || kif_layer("(subclass Human Entity)(instance A Human)(equal A B)");

    let l1 = mk();
    let human1 = l1.syntactic.sym_id("Human").unwrap();
    let b1     = l1.syntactic.sym_id("B").unwrap();
    assert!(matches!(l1.infer_class_scoped(b1, Scope::Base), ClassInference::Single(id) if id == human1),
        "B-first must be Human, got {:?}", l1.infer_class_scoped(b1, Scope::Base));

    let l2 = mk();
    let human2 = l2.syntactic.sym_id("Human").unwrap();
    let a2     = l2.syntactic.sym_id("A").unwrap();
    let b2     = l2.syntactic.sym_id("B").unwrap();
    let _ = l2.infer_class_scoped(a2, Scope::Base);  // compute A first
    assert!(matches!(l2.infer_class_scoped(b2, Scope::Base), ClassInference::Single(id) if id == human2),
        "B-after-A must ALSO be Human (order-independent), got {:?}", l2.infer_class_scoped(b2, Scope::Base));
}

#[test]
fn infer_class_equality_chains_transitively() {
    // A = B = C, only C is taxonomy-classed → A, B, C all resolve to Human.
    let l = kif_layer("
        (subclass Human Entity)
        (instance C Human)
        (equal A B)
        (equal B C)
    ");
    let human = l.syntactic.sym_id("Human").unwrap();
    for name in ["A", "B", "C"] {
        let id = l.syntactic.sym_id(name).unwrap();
        assert!(matches!(l.infer_class_scoped(id, Scope::Base), ClassInference::Single(c) if c == human),
            "{name} should be Human via the equality chain, got {:?}", l.infer_class_scoped(id, Scope::Base));
    }
}

#[test]
fn infer_class_domain_reads_all_positions() {
    // `Foo` is arg-1 (domain Region) AND arg-2 (domain District) of one
    // reflexive atom — both positions contribute, not just the first.
    let l = kif_layer("
        (instance adjacent BinaryRelation)
        (domain adjacent 1 Region)
        (domain adjacent 2 District)
        (adjacent Foo Foo)
    ");
    let region   = l.syntactic.sym_id("Region").unwrap();
    let district = l.syntactic.sym_id("District").unwrap();
    let foo      = l.syntactic.sym_id("Foo").unwrap();
    match l.infer_class_scoped(foo, Scope::Base) {
        ClassInference::Multiple(v) =>
            assert!(v.contains(&region) && v.contains(&district),
                "both arg positions' domains expected, got {v:?}"),
        other => panic!("expected Multiple(Region, District), got {other:?}"),
    }
}

#[test]
fn most_specific_single_element() {
    let l = kif_layer("(subclass Dog Animal)");
    let dog = l.syntactic.sym_id("Dog").unwrap();
    assert_eq!(l.most_specific_class(&vec![dog]), Some(dog));
}

#[test]
fn most_specific_chain_returns_deepest() {
    // Dog subclass Animal — Dog is more specific.
    let l = kif_layer("(subclass Dog Animal)");
    let dog    = l.syntactic.sym_id("Dog").unwrap();
    let animal = l.syntactic.sym_id("Animal").unwrap();
    assert_eq!(l.most_specific_class(&vec![animal, dog]), Some(dog));
    assert_eq!(l.most_specific_class(&vec![dog, animal]), Some(dog));
}

#[test]
fn infer_class_from_taxonomy() {
    let l = kif_layer("(instance Fido Dog)");
    let fido = l.syntactic.sym_id("Fido").unwrap();
    let dog  = l.syntactic.sym_id("Dog").unwrap();
    assert!(matches!(l.infer_class_scoped(fido, Scope::Base), ClassInference::Single(id) if id == dog));
}

#[test]
fn infer_class_class_symbol_returns_class() {
    let l = kif_layer("(subclass Dog Animal)");
    // No instance edge for Dog or Animal.
    let dog = l.syntactic.sym_id("Dog").unwrap();
    assert!(matches!(l.infer_class_scoped(dog, Scope::Base), ClassInference::Class));
}

#[test]
fn infer_class_variable_in_antecedent() {
    // The (instance ?X Dog) sub-sentence is buried inside an implication.
    // The occurrence index records ?X at idx=1 of the (instance ...) sub-sentence.
    let l = kif_layer("(=> (instance ?X Dog) (barks ?X))");
    // Find the scoped variable id for ?X.  Root ids are content hashes (no
    // load order), so locate the root that actually carries variables.
    let root_sid = l.syntactic.root_sids().into_iter()
        .find(|&sid| !l.syntactic.sentence_vars(sid).is_empty())
        .expect("a root with variables");
    let vars = l.syntactic.sentence_vars(root_sid);
    let x_id = vars.first().expect("should have a variable");
    let dog = l.syntactic.sym_id("Dog").unwrap();
    assert!(matches!(l.infer_class_scoped(*x_id, Scope::Base), ClassInference::Single(id) if id == dog));
}

#[test]
fn infer_class_most_specific_two_instance_atoms() {
    // Two (instance ?X ...) atoms in a conjunction — take most specific.
    // The `and` is wrapped in an implication so it is NOT a top-level
    // conjunction (which would be split into separate roots, giving each
    // conjunct its own scoped `?X`); here `?X` stays unified across both.
    let l = kif_layer("
        (subclass SpecialDog Dog)
        (subclass Dog Animal)
        (=> (and (instance ?X Dog) (instance ?X SpecialDog)) (foo ?X))
    ");
    // The implication is the only root carrying variables.
    let root_sid = l.syntactic.root_sids().into_iter()
        .find(|&sid| !l.syntactic.sentence_vars(sid).is_empty())
        .expect("a root with variables");
    let vars = l.syntactic.sentence_vars(root_sid);
    let x_id = vars.first().unwrap();
    let special_dog = l.syntactic.sym_id("SpecialDog").unwrap();
    assert!(matches!(l.infer_class_scoped(*x_id, Scope::Base), ClassInference::Single(id) if id == special_dog));
}

#[test]
fn infer_class_from_domain() {
    let l = kif_layer("
        (subclass Relation Entity)
        (subclass BinaryRelation Relation)
        (instance greaterThan BinaryRelation)
        (domain greaterThan 1 RealNumber)
        (greaterThan ?X 5)
    ");
    let root_sid = l.syntactic.root_sids().into_iter()
        .find(|&sid| !l.syntactic.sentence_vars(sid).is_empty())
        .expect("a root with variables");
    let vars = l.syntactic.sentence_vars(root_sid);
    let x_id = vars.first().unwrap();
    let real_number = l.syntactic.sym_id("RealNumber").unwrap();
    assert!(matches!(l.infer_class_scoped(*x_id, Scope::Base), ClassInference::Single(id) if id == real_number));
}

#[test]
fn infer_class_equality_from_range() {
    let l = kif_layer("
        (subclass Relation Entity)
        (subclass Function Relation)
        (subclass UnaryFunction Function)
        (instance SomeFn UnaryFunction)
        (range SomeFn Foo)
        (equal ?X (SomeFn a))
    ");
    let root_sid = l.syntactic.root_sids().into_iter()
        .find(|&sid| !l.syntactic.sentence_vars(sid).is_empty())
        .expect("a root with variables");
    let vars = l.syntactic.sentence_vars(root_sid);
    let x_id = vars.first().unwrap();
    let foo = l.syntactic.sym_id("Foo").unwrap();
    assert!(matches!(l.infer_class_scoped(*x_id, Scope::Base), ClassInference::Single(id) if id == foo));
}

#[test]
fn infer_class_relations() {
    let l = kif_layer("
        (subclass Abstract Entity)
        (subclass Relation Abstract)
        (instance color Relation)
        (subrelation sheen color)
    ");
    let relation = l.syntactic.sym_id("Relation").unwrap();
    let color = l.syntactic.sym_id("color").unwrap();
    let sheen = l.syntactic.sym_id("sheen").unwrap();
    assert!(matches!(l.infer_class_scoped(color, Scope::Base), ClassInference::Single(id) if id == relation));
    assert!(matches!(l.infer_class_scoped(sheen, Scope::Base), ClassInference::Single(id) if id == relation));
}

#[test]
fn infer_class_multi() {
    let l = kif_layer("
        (subclass Abstract Entity)
        (subclass Relation Abstract)
        (instance color Relation)
        (subrelation sheen color)
    ");
    let relation = l.syntactic.sym_id("Relation").unwrap();
    let color = l.syntactic.sym_id("color").unwrap();
    let sheen = l.syntactic.sym_id("sheen").unwrap();
    assert!(matches!(l.infer_class_scoped(color, Scope::Base), ClassInference::Single(id) if id == relation));
    assert!(matches!(l.infer_class_scoped(sheen, Scope::Base), ClassInference::Single(id) if id == relation));
}

#[test]
fn infer_class_unknown() {
    let l = kif_layer("
        (=> (color ?X Red) (equals Red (ColorFn ?X)))
    ");
    let color = l.syntactic.sym_id("color").unwrap();
    let red = l.syntactic.sym_id("Red").unwrap();
    let color_fn = l.syntactic.sym_id("ColorFn").unwrap();
    assert!(matches!(l.infer_class_scoped(color, Scope::Base), ClassInference::Unknown));
    assert!(matches!(l.infer_class_scoped(red, Scope::Base), ClassInference::Unknown));
    assert!(matches!(l.infer_class_scoped(color_fn, Scope::Base), ClassInference::Unknown));

    let root_sid = l.syntactic.root_sids().into_iter()
        .find(|&sid| !l.syntactic.sentence_vars(sid).is_empty())
        .expect("a root with variables");
    let vars = l.syntactic.sentence_vars(root_sid);
    let x_id = vars.first().unwrap();
    assert!(matches!(l.infer_class_scoped(*x_id, Scope::Base), ClassInference::Unknown));
}

#[test]
fn infer_class_multi_result_domain() {
    // Bob's only classes come from being arg-1 of `performs` (→ PopStar)
    // and arg-1 of `brother` (→ HumanMale) — i.e. domain inference over
    // the relation occurrences.
    let l = kif_layer("
        (subclass Relation Entity)
        (instance performs Relation)
        (domain performs 1 PopStar)
        (domain performs 2 Physical)
        (domain brother 1 HumanMale)
        (domain brother 2 HumanMale)
        (performs Bob ?X)
        (brother Bob George)
    ");
    let male = l.syntactic.sym_id("HumanMale").unwrap();
    let star = l.syntactic.sym_id("PopStar").unwrap();
    let bob = l.syntactic.sym_id("Bob").unwrap();

    let bob_types = l.infer_class_scoped(bob, Scope::Base);

    let ClassInference::Multiple(types) = bob_types else { panic!("Bob should have multiple class inferences") };
    assert_eq!(types.len(), 2);
    assert!(types.contains(&male));
    assert!(types.contains(&star));
}

#[test]
fn declared_subrelation_chains_into_below_set() {
    let layer = kif_layer("
        (subrelation brother sibling)
        (subrelation sibling familyRelation)
    ");
    let rel = layer.syntactic.sym_id("familyRelation").unwrap();
    let bro = layer.syntactic.sym_id("brother").unwrap();
    let sib = layer.syntactic.sym_id("sibling").unwrap();
    let below = layer.subrel_below(rel, Scope::Base);
    assert!(below.contains_key(bro) && below.contains_key(sib));
    // brother's hop points at sibling, sibling's at the target.
    assert_eq!(below.hop(bro).map(|(up, _)| up), Some(sib));
    assert_eq!(below.hop(sib).map(|(up, _)| up), Some(rel));
    assert_eq!(below.hop(rel), None);
}

#[test]
fn mined_rule_edge_enters_lattice_with_sid() {
    let layer = kif_layer("
        (=> (greaterThan ?X ?Y) (greaterThanOrEqualTo ?X ?Y))
        (instance greaterThan BinaryPredicate)
    ");
    let ge = layer.syntactic.sym_id("greaterThanOrEqualTo").unwrap();
    let gt = layer.syntactic.sym_id("greaterThan").unwrap();
    let below = layer.subrel_below(ge, Scope::Base);
    let hop = below.hop(gt).expect("mined edge present");
    assert_eq!(hop.0, ge);
    assert!(hop.1.is_some(), "mined hop carries the rule's sid");
}

#[test]
fn wrong_shapes_are_not_mined() {
    let layer = kif_layer("
        (=> (p ?X ?Y) (q ?Y ?X))
        (=> (r ?X ?Y) (r2 ?X ?Z))
        (=> (s ?X ?X) (s2 ?X ?X))
        (=> (and (t ?X ?Y) (t ?Y ?Z)) (t ?X ?Z))
    ");
    for (sub, sup) in [("p", "q"), ("r", "r2"), ("s", "s2")] {
        let sup_id = layer.syntactic.sym_id(sup).unwrap();
        let sub_id = layer.syntactic.sym_id(sub).unwrap();
        let below = layer.subrel_below(sup_id, Scope::Base);
        assert!(!below.contains_key(sub_id),
            "({sub} -> {sup}) must not mine: wrong variable shape");
    }
}

#[test]
fn reachability_with_parent_pointers() {
    let layer = kif_layer("
        (located a b)
        (located b c)
        (located c d)
        (located x y)
    ");
    let rel = layer.syntactic.sym_id("located").unwrap();
    let a = layer.syntactic.sym_id("a").unwrap();
    let b = layer.syntactic.sym_id("b").unwrap();
    let c = layer.syntactic.sym_id("c").unwrap();
    let d = layer.syntactic.sym_id("d").unwrap();
    let y = layer.syntactic.sym_id("y").unwrap();

    let reach = layer.trans_reach(rel, a, Scope::Base).1;
    assert_eq!(reach.len(), 3, "b, c, d reachable; y not");
    assert!(!reach.contains_key(a), "only proper destinations");
    assert!(reach.contains_key(d) && !reach.contains_key(y));
    // Walk the parent pointers d -> c -> b -> a.
    assert_eq!(reach.hop(d).unwrap().0, c);
    assert_eq!(reach.hop(c).unwrap().0, b);
    assert_eq!(reach.hop(b).unwrap().0, a);
}

#[test]
fn reach_inherits_subrelation_edges() {
    let layer = kif_layer("
        (subrelation properlyLocated located)
        (located a b)
        (properlyLocated b c)
    ");
    let rel = layer.syntactic.sym_id("located").unwrap();
    let a = layer.syntactic.sym_id("a").unwrap();
    let c = layer.syntactic.sym_id("c").unwrap();
    let reach = layer.trans_reach(rel, a, Scope::Base).1;
    assert!(reach.contains_key(c),
        "the properlyLocated edge flows up into located's graph");
}

#[test]
fn hop_sids_cite_the_direct_facts() {
    let layer = kif_layer("
        (located a b)
        (located b c)
    ");
    let rel = layer.syntactic.sym_id("located").unwrap();
    let a = layer.syntactic.sym_id("a").unwrap();
    let c = layer.syntactic.sym_id("c").unwrap();
    let reach = layer.trans_reach(rel, a, Scope::Base).1;
    let hop_sid = reach.hop(c).unwrap().1.unwrap();
    let s = layer.syntactic.sentence(hop_sid).expect("hop sid resolves");
    assert_eq!(s.elements.len(), 3, "hop cites the (located b c) fact");
}

#[test]
fn is_instance_cached_on_second_call() {
    let layer = kif_layer("(instance Fido Dog)");
    let fido = layer.syntactic.sym_id("Fido").unwrap();
    let mut cache = QueryCache::new();
    let v1 = cache.is_instance(&layer, fido, Scope::Base);
    assert!(v1);
    assert!(cache.is_instance.peek(Scope::Base, fido).is_some());
    assert_eq!(cache.is_instance(&layer, fido, Scope::Base), v1);
}

#[test]
fn is_relation() {
    let layer = base_layer();
    let id = layer.syntactic.sym_id("subclass").unwrap();
    assert!(layer.is_relation(id));
}

#[test]
fn is_predicate() {
    let layer = base_layer();
    let id = layer.syntactic.sym_id("instance").unwrap();
    assert!(layer.is_predicate(id));
}

#[test]
fn is_class() {
    let layer = base_layer();
    assert!(layer.is_class(layer.syntactic.sym_id("Human").unwrap()));
    assert!(!layer.is_class(layer.syntactic.sym_id("subclass").unwrap()));
}

#[test]
fn has_ancestor() {
    let layer = base_layer();
    let human = layer.syntactic.sym_id("Human").unwrap();
    assert!(layer.has_ancestor_by_name(human, "Entity"));
    assert!(layer.has_ancestor_by_name(human, "Animal"));
    assert!(!layer.has_ancestor_by_name(human, "Relation"));
}

#[test]
fn taxonomy_edge_lives_in_layer() {
    let layer = base_layer();
    assert!(layer.tax.len() > 0);
    let human = layer.syntactic.sym_id("Human").unwrap();
    assert!(layer.has_ancestor_by_name(human, "Entity"));
    assert!(layer.has_ancestor_by_name(human, "Animal"));
}

#[test]
fn taxonomy_rebuilt_after_remove() {
    let mut store = SyntacticLayer::new();
    let cats = load(&mut store, "(subclass Cat Animal)", "cats");
    load(&mut store, "(subclass Animal Entity)", "core");
    let mut layer = SemanticLayer::new(store);
    let cat = layer.syntactic.sym_id("Cat").unwrap();
    let animal = layer.syntactic.sym_id("Animal").unwrap();
    assert!(layer.has_ancestor_by_name(cat, "Animal"));

    for sid in cats {
        layer.syntactic.remove_root(sid);
    }
    let layer = SemanticLayer::new(layer.syntactic);
    assert!(!layer.has_ancestor_by_name(cat, "Animal"));
    assert!(layer.has_ancestor_by_name(animal, "Entity"));
}

#[test]
fn classify_taxonomy_heads() {
    let layer = kif_layer(
        "
        (subclass Dog Animal)
        (instance Fido Dog)
        (subrelation parent ancestor)
        (subAttribute Happy Mood)
    ",
    );
    for sid in layer.syntactic.root_sids() {
        let impact = layer.classify_sentence_tree(sid);
        assert!(impact.taxonomy);
        assert!(impact.semantic_cache);
        assert!(!impact.sort_annotations);
        assert!(!impact.numeric_char);
    }
}

#[test]
fn classify_domain_range_axioms() {
    let layer = kif_layer(
        "
        (domain parent 1 Organism)
        (range mother Woman)
        (domainSubclass shapeOf 1 Object)
    ",
    );
    for sid in layer.syntactic.root_sids() {
        let impact = layer.classify_sentence_tree(sid);
        assert!(impact.sort_annotations);
        assert!(!impact.taxonomy);
    }
}

#[test]
fn classify_non_taxonomy_sentence_has_no_impact() {
    let layer = kif_layer("(attribute Alice Tall)");
    let impact = layer.classify_sentence_tree(layer.syntactic.root_sids()[0]);
    assert!(!impact.any());
}

#[test]
fn classify_numeric_biconditional_flags_numeric_char() {
    let mut store = SyntacticLayer::new();
    let forms = read_forms("(<=> (instance ?X PositiveInteger) (greaterThan ?X 0))");
    let roots = load_plain(&mut store, &forms, "t");
    let layer = SemanticLayer::new(store);
    assert!(layer.classify_sentence_tree(roots[0]).numeric_char);
}

#[test]
fn classify_nested_subclass_in_implication() {
    let layer = kif_layer("(=> (foo ?X) (subclass ?X Animal))");
    let impact = layer.classify_sentence_tree(layer.syntactic.root_sids()[0]);
    assert!(impact.taxonomy);
}

fn added(layer: &SemanticLayer, roots: &[SentenceId]) -> Vec<Event> {
    let mut events = Vec::new();
    for sid in roots {
        if let Some(head_id) = layer.syntactic.sentence(*sid).unwrap().head_symbol() {
            events.push(Event::RelationAdded { sid: *sid, head_id });
        }
    }
    events
}

fn edges(layer: &SemanticLayer) -> Vec<(SymbolId, SymbolId, &'static str)> {
    let mut out = Vec::new();
    for i in 0..layer.tax.len() {
        let e = layer.tax.edge_at(i);
        out.push((e.from, e.to, e.rel.name()));
    }
    out.sort();
    out
}

#[test]
fn extend_taxonomy_with_matches_full_rebuild() {
    let text = "
        (subclass Dog Animal)
        (subclass Animal Entity)
        (subclass Cat Animal)
        (instance Fido Dog)
        (domain parent 1 Organism)
        (range father Man)
        (attribute Alice Warm)
    ";
    let full = kif_layer(text);
    let mut inc = SemanticLayer::new(SyntacticLayer::new());
    let roots = load(&mut inc.syntactic, text, "base");
    let events = added(&inc, &roots);
    inc.react(&events);
    assert_eq!(edges(&full), edges(&inc));
    assert_eq!(edges(&full).len(), 4);
}

#[test]
fn extend_taxonomy_with_no_impact_does_nothing() {
    let mut layer = kif_layer("(subclass Dog Animal)");
    let before = layer.tax.len();
    let roots = load(&mut layer.syntactic, "(attribute Alice Tall) (part Alice Earth)", "extra");
    assert_eq!(roots.len(), 2);
    let events = added(&layer, &roots);
    layer.react(&events);
    assert_eq!(layer.tax.len(), before);
}

/// A head that is no relation is worth a verdict of its own.
fn validate(layer: &SemanticLayer, verdicts: &mut Verdicts, scope: Scope, sid: SentenceId) -> usize {
    let head = layer.syntactic.sentence(sid).unwrap().head_symbol();
    let strange = head.map_or(false, |h| !layer.is_relation(h));
    verdicts.record((scope, sid), Vec::new());
    if strange {
        1
    } else {
        0
    }
}

fn cascade(layer: &SemanticLayer, verdicts: &mut Verdicts, events: Vec<Event>) {
    for (scope, sid) in verdicts.react(layer, &events) {
        validate(layer, verdicts, scope, sid);
    }
}

#[test]
fn validation_memoises_per_sentence() {
    let layer = kif_layer("(subclass Foo Entity) (Foo Bar Baz)");
    let sid = by_head(&layer, "Foo")[0];
    let mut verdicts = Verdicts::new();
    assert!(validate(&layer, &mut verdicts, Scope::Base, sid) > 0);
    assert!(verdicts.known(sid, Scope::Base));
}

#[test]
fn validate_sentence_event_stores_result() {
    let layer = kif_layer("(subclass Foo Entity) (Foo Bar Baz)");
    let sid = by_head(&layer, "Foo")[0];
    let mut verdicts = Verdicts::new();
    assert!(!verdicts.known(sid, Scope::Base));
    cascade(&layer, &mut verdicts, vec![Event::ValidateSentence { sid }]);
    assert!(verdicts.known(sid, Scope::Base));
}

#[test]
fn validate_kb_event_validates_all_roots() {
    let layer = kif_layer("(subclass Animal Entity) (Foo Bar Baz)");
    let mut verdicts = Verdicts::new();
    cascade(&layer, &mut verdicts, vec![Event::ValidateKB]);
    for sid in layer.syntactic.root_sids() {
        assert!(verdicts.known(sid, Scope::Base));
    }
}

#[test]
fn root_change_clears_validation() {
    let layer = kif_layer("(subclass Animal Entity)");
    let sid = layer.syntactic.root_sids()[0];
    let mut verdicts = Verdicts::new();
    validate(&layer, &mut verdicts, Scope::Base, sid);
    assert!(verdicts.known(sid, Scope::Base));
    cascade(&layer, &mut verdicts, vec![Event::RootAdded { sid: 12345 }]);
    assert!(!verdicts.known(sid, Scope::Base));
}
