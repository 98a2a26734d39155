//! Reading what a prover wrote, and writing clauses.
use sigma_core::atoms::{AtomLit, AtomTable};
use sigma_core::kif::KifNode;
use sigma_core::render::{clause_to_kif, is_skolem_name, SkolemNames};
use sigma_core::scale::{ProverStatus, TerminationReason};
use sigma_core::store::SyntacticLayer;
use sigma_core::szs::{parse_szs, DocItem, Role};
use sigma_core::term::Term;
use sigma_core::text::chars_of;
use sigma_core::types::{Literal, OpKind, Symbol};
use sigma_core::vampire_proof::{
    extract_input_error, extract_termination_reason, is_input_error, is_timeout, parse_vampire_result,
    result_from_transcript, status_label, ProverMode,
};

const PROOF: &str = "\
% SZS status Theorem for input
% SZS output start Proof for input
fof(f1,axiom,(
  s__instance(s__Rex,s__Dog)),
  file('/work/input.p',kb_1)).
fof(f2,conjecture,(
  s__instance(s__Rex,s__Dog)),
  file('/work/input.p',conjecture)).
fof(f3,negated_conjecture,(
  ~s__instance(s__Rex,s__Dog)),
  inference(negated_conjecture,[],[f2])).
fof(f4,plain,(
  ~s__instance(s__Rex,s__Dog)),
  inference(cnf_transformation,[],[f3])).
fof(f5,plain,(
  $false),
  inference(resolution,[],[f1,f4])).
% SZS output end Proof for input
";

fn formula(text: &str) -> String {
    let doc = parse_szs(&chars_of(&format!("fof(a,axiom,({text})).")));
    match &doc[0] {
        DocItem::Stmt { formula, .. } => formula.flat(),
        other => panic!("no statement: {other:?}"),
    }
}

fn sym(name: &str) -> Term {
    Term::Sym(Symbol::new(name))
}

#[test]
fn derived_steps_are_labeled_by_their_inference_rule_not_plain() {
    let result = parse_vampire_result(PROOF, ProverMode::Prove);
    let rules: Vec<&str> = result.proof.iter().map(|s| s.rule.as_str()).collect();
    assert_eq!(rules, vec!["axiom", "conjecture", "negated_conjecture", "cnf_transformation", "resolution"]);
    assert!(!rules.contains(&"plain"));
}

#[test]
fn proof_step_formulas_render_as_kif_not_quoted_tptp() {
    let raw = "\
% SZS status Theorem for input
% SZS output start Proof for input
fof(f1,axiom,(
  s__instance(s__organizationalObjective,s__BinaryPredicate)),
  file('/work/input.p',kb_1)).
fof(f2,axiom,(
  $false),
  inference(resolution,[],[f1])).
% SZS output end Proof for input
";
    let result = parse_vampire_result(raw, ProverMode::Prove);
    let rendered: Vec<String> = result.proof.iter().map(|s| s.formula.flat()).collect();
    assert_eq!(
        rendered,
        vec!["(instance organizationalObjective BinaryPredicate)".to_string(), "False".to_string()]
    );
    assert_eq!(result.status, ProverStatus::Inconsistent);
}

#[test]
fn premises_and_sources_are_kept() {
    let result = parse_vampire_result(PROOF, ProverMode::Prove);
    assert_eq!(result.status, ProverStatus::Proved);
    assert!(result.answers);
    assert_eq!(result.proof[4].premises, vec![0, 3]);
    assert_eq!(result.proof[3].premises, vec![2]);
    assert_eq!(result.proof[0].premises, Vec::<usize>::new());
    assert_eq!(result.proof[0].source_name.as_deref(), Some("kb_1"));
    assert_eq!(result.proof[1].source_name, None);
    for (i, step) in result.proof.iter().enumerate() {
        assert_eq!(step.index, i);
    }
}

#[test]
fn transcripts_in_two_parts_read_like_one() {
    let (head, tail) = PROOF.split_at(40);
    let whole = parse_vampire_result(PROOF, ProverMode::Prove);
    let parts = result_from_transcript(head, tail, ProverMode::Prove);
    assert_eq!(parts.status, whole.status);
    assert_eq!(parts.raw_output, PROOF);
    assert_eq!(parts.answers, whole.answers);
    assert_eq!(parts.proof_kif.len(), whole.proof.len());
    assert_eq!(parts.termination, None);
    assert_eq!(parts.rejection, None);
    assert!(parts.proof_tptp.starts_with("fof(f1,axiom,("));
    assert!(parts.proof_tptp.ends_with("[f1,f4])).\n% "));
}

#[test]
fn status_words_by_mode() {
    let say = |w: &str, m: ProverMode| parse_vampire_result(&format!("% SZS status {w} for input\n"), m).status;
    assert_eq!(say("Theorem", ProverMode::Prove), ProverStatus::Proved);
    assert_eq!(say("Unsatisfiable", ProverMode::Prove), ProverStatus::Proved);
    assert_eq!(say("ContradictoryAxioms", ProverMode::Prove), ProverStatus::Inconsistent);
    assert_eq!(say("CounterSatisfiable", ProverMode::Prove), ProverStatus::Disproved);
    assert_eq!(say("Timeout", ProverMode::Prove), ProverStatus::Timeout);
    assert_eq!(say("GaveUp", ProverMode::Prove), ProverStatus::Unknown);
    assert_eq!(say("Satisfiable", ProverMode::Prove), ProverStatus::Unknown);
    assert_eq!(say("Satisfiable", ProverMode::CheckConsistency), ProverStatus::Consistent);
    assert_eq!(say("CounterSatisfiable", ProverMode::CheckConsistency), ProverStatus::Consistent);
    assert_eq!(say("Unsatisfiable", ProverMode::CheckConsistency), ProverStatus::Inconsistent);
    assert_eq!(say("Theorem", ProverMode::CheckConsistency), ProverStatus::Inconsistent);
    assert_eq!(say("Timeout", ProverMode::CheckConsistency), ProverStatus::Timeout);
    assert_eq!(parse_vampire_result("", ProverMode::Prove).status, ProverStatus::Unknown);
    assert_eq!(status_label(ProverStatus::Disproved), "Disproved");
    assert_eq!(status_label(ProverStatus::InputError), "InputError");
}

#[test]
fn rejected_inputs_are_reported() {
    let raw = "% noise\n  User error: bad sort\n   the term s__X \n% SZS status Satisfiable for input\n";
    let r = result_from_transcript(raw, "", ProverMode::CheckConsistency);
    assert_eq!(r.status, ProverStatus::InputError);
    assert_eq!(r.rejection.as_deref(), Some("User error: bad sort the term s__X"));
    let only = chars_of("Parse error here\n% a comment\n");
    assert_eq!(extract_input_error(&only).as_deref(), Some("Parse error here"));
    assert_eq!(extract_input_error(&chars_of("all is well\n")), None);
    // The line that names the user's error is preferred, wherever it stands.
    let both = chars_of("Parse error in p\n% note\nUser error: bad sort\n");
    assert_eq!(extract_input_error(&both).as_deref(), Some("User error: bad sort"));
    let later = chars_of("Syntax error at 3\nnear x\nParse error\n");
    assert_eq!(extract_input_error(&later).as_deref(), Some("Syntax error at 3 near x"));
    let word = result_from_transcript("\n % SZS status TypeError for x \n", "", ProverMode::Prove);
    assert_eq!(word.status, ProverStatus::InputError);
    assert_eq!(word.rejection.as_deref(), Some("% SZS status TypeError for x"));
    assert!(is_input_error(&chars_of("a Syntax error")));
    assert!(!is_input_error(&chars_of("an error")));
}

#[test]
fn termination_reasons() {
    let why = |s: &str| extract_termination_reason(&chars_of(s));
    assert_eq!(why("% SZS status Theorem for x"), None);
    assert_eq!(why("% Termination reason: Refutation\n% Memory limit"), None);
    assert_eq!(why("% Termination reason: Time limit"), Some(TerminationReason::TimeLimit));
    assert_eq!(why("Time limit reached!"), Some(TerminationReason::TimeLimit));
    assert_eq!(why("% Termination reason: Memory limit"), Some(TerminationReason::ResourceOut));
    assert_eq!(
        why("% Termination reason: Refutation not found, incomplete strategy"),
        Some(TerminationReason::ResourceOut)
    );
    assert_eq!(
        why("% Termination reason: Refutation not found, non-redundant clauses discarded"),
        Some(TerminationReason::ResourceOut)
    );
    assert_eq!(why("Refutation not found, incomplete strategy"), Some(TerminationReason::ResourceOut));
    assert_eq!(why("% Termination reason: Satisfiable"), Some(TerminationReason::Saturation));
    assert_eq!(why("% SZS status CounterSatisfiable"), Some(TerminationReason::Saturation));
    assert_eq!(why("% SZS status GaveUp"), Some(TerminationReason::GaveUp));
    assert_eq!(why("% Termination reason: Unknown"), Some(TerminationReason::GaveUp));
    assert_eq!(why("nothing"), None);
    assert!(is_timeout(&chars_of("SZS status Timeout")));
    assert!(!is_timeout(&chars_of("SZS status Time")));
}

#[test]
fn formulas_of_every_kind() {
    assert_eq!(formula("p & q & r"), "(and p q r)");
    assert_eq!(formula("p | ~q"), "(or p (not q))");
    assert_eq!(formula("(p => q) <=> r"), "(<=> (=> p q) r)");
    assert_eq!(formula("p <= q"), "(=> q p)");
    assert_eq!(formula("p <~> q"), "(not (<=> p q))");
    assert_eq!(formula("p ~| q"), "(not (or p q))");
    assert_eq!(formula("p ~& q"), "(not (and p q))");
    assert_eq!(formula("! [X0,X1] : (s__p(X0) => ? [Y] : s__q(X1,Y))"), "(forall (?X0 ?X1) (=> (p ?X0) (exists (?Y) (q ?X1 ?Y))))");
    assert_eq!(formula("! [X : $int] : s__f(X) = 3"), "(forall (?X) (equal (f ?X) 3))");
    assert_eq!(formula("a != \"b c\""), "(not (equal a \"b c\"))");
    assert_eq!(formula("'odd name'(X)"), "(odd name ?X)");
    assert_eq!(formula("$true"), "True");
}

#[test]
fn unreadable_statements_are_passed_over() {
    let doc = parse_szs(&chars_of("fof(a,axiom,(p &)).\ncnf(b,plain,q | r).\nfof(c,axiom,(p)\nnoise\n% SZS status  Theorem\n"));
    assert_eq!(doc.len(), 2);
    match &doc[0] {
        DocItem::Stmt { name, role, formula, .. } => {
            assert_eq!(name, "b");
            assert_eq!(role.role_str(), "plain");
            assert_eq!(formula.flat(), "(or q r)");
        }
        other => panic!("{other:?}"),
    }
    assert!(matches!(&doc[1], DocItem::Status(w) if w == "Theorem"));
}

#[test]
fn role_words_come_back() {
    for w in ["axiom", "hypothesis", "definition", "lemma", "conjecture", "negated_conjecture", "plain", "type", "corollary"] {
        assert_eq!(Role::of_word(w).role_str(), w);
    }
    assert!(matches!(Role::of_word("corollary"), Role::Other(_)));
}

#[test]
fn nodes_on_one_line() {
    let n = KifNode::List(vec![
        KifNode::Operator(OpKind::Implies),
        KifNode::List(vec![KifNode::Symbol("p".into()), KifNode::Variable("X".into()), KifNode::RowVariable("R".into())]),
        KifNode::List(vec![KifNode::Symbol("q".into()), KifNode::Number("3".into()), KifNode::Str("\"s\"".into())]),
    ]);
    assert_eq!(n.flat(), "(=> (p ?X @R) (q 3 \"s\"))");
    assert_eq!(KifNode::List(Vec::new()).flat(), "()");
    assert_eq!(n.clone(), n);
}

#[test]
fn clauses_are_written_with_short_skolem_names() {
    let syn = SyntacticLayer::new();
    let mut atoms = AtomTable::new();
    let sk_f = Term::App(vec![sym("sk_9_1"), Term::Var(0)]);
    let a = atoms.intern_atom(&Term::App(vec![sym("parent"), Term::Var(0), sk_f])).unwrap();
    let b = atoms.intern_atom(&Term::App(vec![sym("likes"), sym("sk_9_2"), sym("Mary")])).unwrap();
    let c = atoms.intern_atom(&Term::App(vec![sym("age"), sym("sk_9_2"), Term::Lit(Literal::Number("7".into()))])).unwrap();
    let mut sk = SkolemNames::new();
    let two = vec![AtomLit { pos: false, atom: a }, AtomLit { pos: true, atom: b }];
    assert_eq!(clause_to_kif(&two, &atoms, &syn, &mut sk), "(or (not (parent ?V0 (SkFn1 ?V0))) (likes SkC1 Mary))");
    let one = vec![AtomLit { pos: true, atom: c }];
    assert_eq!(clause_to_kif(&one, &atoms, &syn, &mut sk), "(age SkC1 7)");
    let lost = vec![AtomLit { pos: false, atom: 5 }];
    assert_eq!(clause_to_kif(&lost, &atoms, &syn, &mut sk), "(not sid: 5)");
    assert_eq!(clause_to_kif(&Vec::new(), &atoms, &syn, &mut sk), "(or )");
    assert_eq!(sk.render(Symbol::hash_name("sk_9_3"), true), "SkFn2");
    assert_eq!(sk.render(Symbol::hash_name("sk_9_3"), false), "SkFn2");
    assert!(is_skolem_name("sk_1_2"));
    assert!(!is_skolem_name("sky"));
}
