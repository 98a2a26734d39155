//! What a Vampire transcript says: the verdict, why the run ended, and the proof
//! as a graph of steps.
use vstd::prelude::*;

use crate::kif::{KifNode, KifTree};
use crate::scale::{ProverStatus, TerminationReason};
use crate::scan::{
    contains_text, end_of_line, find_from, first_at, has_text, lines_from, occurs_at, same_text, stands_at,
    trim_between, trimmed, without_return,
};
use crate::szs::{document, item_views, parse_szs, texts, DocItem, ItemView, Source, SourceView};
use crate::text::{chars_of, text_between};

verus! {

/// What the prover was asked: to prove a conjecture, or whether the sentences
/// are consistent.
#[derive(Clone, Copy, Debug, PartialEq, Eq, Structural)]
pub enum ProverMode {
    Prove,
    CheckConsistency,
}

/// The run ended for want of time.
pub open spec fn timed_out(s: Seq<char>) -> bool {
    has_text(s, "SZS status Timeout"@) || has_text(s, "Termination reason: Time limit"@) || has_text(
        s,
        "Time limit reached"@,
    )
}

/// The prover could not take the problem in.
pub open spec fn rejected(s: Seq<char>) -> bool {
    has_text(s, "User error"@) || has_text(s, "Parse error"@) || has_text(s, "Syntax error"@) || has_text(
        s,
        "SZS status SyntaxError"@,
    ) || has_text(s, "SZS status TypeError"@)
}

/// Whether the run ended for want of time.
pub fn is_timeout(output: &Vec<char>) -> (r: bool)
    ensures
        r == timed_out(output@),
{
    contains_text(output, "SZS status Timeout") || contains_text(output, "Termination reason: Time limit")
        || contains_text(output, "Time limit reached")
}

/// Whether the prover could not take the problem in.
pub fn is_input_error(output: &Vec<char>) -> (r: bool)
    ensures
        r == rejected(output@),
{
    contains_text(output, "User error") || contains_text(output, "Parse error") || contains_text(
        output,
        "Syntax error",
    ) || contains_text(output, "SZS status SyntaxError") || contains_text(output, "SZS status TypeError")
}

/// The verdict that a transcript and its status word give.  A rejected input is
/// no verdict in either mode.
pub open spec fn verdict(output: Seq<char>, word: Option<Seq<char>>, mode: ProverMode) -> ProverStatus {
    let open_end = if timed_out(output) {
        ProverStatus::Timeout
    } else {
        ProverStatus::Unknown
    };
    if rejected(output) {
        ProverStatus::InputError
    } else {
        match (mode, word) {
            (_, None) => open_end,
            (ProverMode::Prove, Some(w)) => if w == "Theorem"@ || w == "Unsatisfiable"@ {
                ProverStatus::Proved
            } else if w == "ContradictoryAxioms"@ {
                ProverStatus::Inconsistent
            } else if w == "CounterSatisfiable"@ {
                ProverStatus::Disproved
            } else {
                open_end
            },
            (ProverMode::CheckConsistency, Some(w)) => if w == "Satisfiable"@ || w == "CounterSatisfiable"@ {
                ProverStatus::Consistent
            } else if w == "Unsatisfiable"@ || w == "Theorem"@ || w == "ContradictoryAxioms"@ {
                ProverStatus::Inconsistent
            } else {
                open_end
            },
        }
    }
}

/// The characters of a text that may be missing.
pub open spec fn text_view(s: Option<String>) -> Option<Seq<char>> {
    match s {
        None => None,
        Some(w) => Some(w@),
    }
}

/// Classifies a transcript, given its status word.
pub fn determine_status(output: &Vec<char>, word: &Option<String>, mode: ProverMode) -> (r: ProverStatus)
    ensures
        r == verdict(output@, text_view(*word), mode),
{
    if is_input_error(output) {
        return ProverStatus::InputError;
    }
    if let Some(w) = word {
        let w: &str = w.as_str();
        match mode {
            ProverMode::Prove => {
                if same_text(w, "Theorem") || same_text(w, "Unsatisfiable") {
                    return ProverStatus::Proved;
                }
                if same_text(w, "ContradictoryAxioms") {
                    return ProverStatus::Inconsistent;
                }
                if same_text(w, "CounterSatisfiable") {
                    return ProverStatus::Disproved;
                }
            },
            ProverMode::CheckConsistency => {
                if same_text(w, "Satisfiable") || same_text(w, "CounterSatisfiable") {
                    return ProverStatus::Consistent;
                }
                if same_text(w, "Unsatisfiable") || same_text(w, "Theorem") || same_text(w, "ContradictoryAxioms") {
                    return ProverStatus::Inconsistent;
                }
            },
        }
    }
    if is_timeout(output) {
        ProverStatus::Timeout
    } else {
        ProverStatus::Unknown
    }
}

/// The word of the first status line.
pub open spec fn status_word(doc: Seq<ItemView>) -> Option<Seq<char>>
    decreases doc.len(),
{
    if doc.len() == 0 {
        None
    } else {
        match status_word(doc.drop_last()) {
            Some(w) => Some(w),
            None => match doc.last() {
                ItemView::Status(w) => Some(w),
                _ => None,
            },
        }
    }
}

proof fn lemma_status_word_found(doc: Seq<ItemView>, i: int)
    requires
        0 <= i <= doc.len(),
        status_word(doc.take(i)) is Some,
    ensures
        status_word(doc) == status_word(doc.take(i)),
    decreases doc.len() - i,
{
    if i < doc.len() {
        assert(doc.take(i + 1).drop_last() =~= doc.take(i));
        lemma_status_word_found(doc, i + 1);
    } else {
        assert(doc.take(i) =~= doc);
    }
}

/// The word of the first status line of a document.
pub fn szs_status_word(doc: &Vec<DocItem>) -> (r: Option<String>)
    ensures
        text_view(r) == status_word(item_views(doc@)),
{
    let ghost vs = item_views(doc@);
    let mut i: usize = 0;
    assert(vs.take(0) =~= Seq::empty());
    while i < doc.len()
        invariant
            i <= doc@.len(),
            vs == item_views(doc@),
            status_word(vs.take(i as int)) is None,
        decreases doc@.len() - i,
    {
        proof {
            assert(vs.take(i + 1).drop_last() =~= vs.take(i as int));
            assert(vs.take(i + 1).last() == doc@[i as int]@);
        }
        if let DocItem::Status(w) = &doc[i] {
            proof {
                lemma_status_word_found(vs, i + 1);
            }
            return Some(w.clone());
        }
        i += 1;
    }
    assert(vs.take(i as int) =~= vs);
    None
}

/// One step of a proof as it stands in a transcript.
#[derive(Debug)]
pub struct ProofStep {
    pub id: String,
    pub role: String,
    pub formula: KifNode,
    pub parents: Vec<String>,
    pub rule: Option<String>,
    pub source_name: Option<String>,
}

/// A step with its texts.
pub struct StepView {
    pub id: Seq<char>,
    pub role: Seq<char>,
    pub formula: KifTree,
    pub parents: Seq<Seq<char>>,
    pub rule: Option<Seq<char>>,
    pub source_name: Option<Seq<char>>,
}

impl View for ProofStep {
    type V = StepView;

    open spec fn view(&self) -> StepView {
        StepView {
            id: self.id@,
            role: self.role@,
            formula: self.formula@,
            parents: texts(self.parents@),
            rule: text_view(self.rule),
            source_name: text_view(self.source_name),
        }
    }
}

/// The views of the steps.
pub open spec fn step_views(steps: Seq<ProofStep>) -> Seq<StepView> {
    Seq::new(steps.len(), |i: int| steps[i]@)
}

/// The name is that of a sentence of the knowledge base.
pub open spec fn own_name(name: Seq<char>) -> bool {
    name.len() >= 3 && name[0] == 'k' && name[1] == 'b' && name[2] == '_'
}

/// The step that an item of a document is.  A name in the input counts as a
/// source only where it is that of a sentence of the knowledge base.
pub open spec fn step_of(item: ItemView) -> Option<StepView> {
    match item {
        ItemView::Status(_) => None,
        ItemView::Stmt { name, role, formula, source } => Some(
            StepView {
                id: name,
                role,
                formula,
                parents: match source {
                    SourceView::Inference { rule, parents } => parents,
                    _ => Seq::empty(),
                },
                rule: match source {
                    SourceView::Inference { rule, parents } => Some(rule),
                    _ => None,
                },
                source_name: match source {
                    SourceView::Input(Some(n)) => if own_name(n) {
                        Some(n)
                    } else {
                        None
                    },
                    _ => None,
                },
            },
        ),
    }
}

/// The steps of a document, in its order.
pub open spec fn steps_of(doc: Seq<ItemView>) -> Seq<StepView>
    decreases doc.len(),
{
    if doc.len() == 0 {
        Seq::empty()
    } else {
        match step_of(doc.last()) {
            Some(s) => steps_of(doc.drop_last()).push(s),
            None => steps_of(doc.drop_last()),
        }
    }
}

fn is_own_name(name: &str) -> (r: bool)
    ensures
        r == own_name(name@),
{
    if name.unicode_len() < 3 {
        return false;
    }
    name.get_char(0) == 'k' && name.get_char(1) == 'b' && name.get_char(2) == '_'
}

fn copy_texts(ss: &Vec<String>) -> (r: Vec<String>)
    ensures
        texts(r@) == texts(ss@),
{
    let mut out: Vec<String> = Vec::new();
    let mut i: usize = 0;
    while i < ss.len()
        invariant
            i <= ss@.len(),
            out@.len() == i,
            forall|k: int| 0 <= k < i ==> (#[trigger] out@[k])@ == ss@[k]@,
        decreases ss@.len() - i,
    {
        out.push(ss[i].clone());
        i += 1;
    }
    assert(texts(out@) =~= texts(ss@));
    out
}

fn item_step(item: &DocItem) -> (r: Option<ProofStep>)
    ensures
        match (r, step_of(item@)) {
            (None, None) => true,
            (Some(a), Some(b)) => a@ == b,
            _ => false,
        },
{
    match item {
        DocItem::Status(_) => None,
        DocItem::Stmt { name, role, formula, source } => {
            let mut parents: Vec<String> = Vec::new();
            let mut rule: Option<String> = None;
            let mut source_name: Option<String> = None;
            assert(texts(parents@) =~= Seq::empty());
            match source {
                Source::Inference { rule: r, parents: ps } => {
                    parents = copy_texts(ps);
                    rule = Some(r.clone());
                },
                Source::Input(Some(n)) => {
                    if is_own_name(n.as_str()) {
                        source_name = Some(n.clone());
                    }
                },
                _ => {},
            }
            Some(
                ProofStep {
                    id: name.clone(),
                    role: role.role_str().to_owned(),
                    formula: formula.clone(),
                    parents,
                    rule,
                    source_name,
                },
            )
        },
    }
}

/// The steps of a document, in its order.
pub fn docitems_to_proof_steps(doc: &Vec<DocItem>) -> (r: Vec<ProofStep>)
    ensures
        step_views(r@) == steps_of(item_views(doc@)),
{
    let ghost vs = item_views(doc@);
    let mut out: Vec<ProofStep> = Vec::new();
    let mut i: usize = 0;
    assert(vs.take(0) =~= Seq::empty());
    assert(step_views(out@) =~= Seq::empty());
    while i < doc.len()
        invariant
            i <= doc@.len(),
            vs == item_views(doc@),
            step_views(out@) == steps_of(vs.take(i as int)),
        decreases doc@.len() - i,
    {
        proof {
            assert(vs.take(i + 1).drop_last() =~= vs.take(i as int));
            assert(vs.take(i + 1).last() == doc@[i as int]@);
        }
        if let Some(s) = item_step(&doc[i]) {
            let ghost before = out@;
            out.push(s);
            assert(step_views(out@) =~= step_views(before).push(s@));
        }
        i += 1;
    }
    assert(vs.take(i as int) =~= vs);
    out
}

/// A step of a proof graph: the rule that gave the formula, and the places of
/// the steps it was drawn from.
#[derive(Debug)]
pub struct KifProofStep {
    pub index: usize,
    pub rule: String,
    pub premises: Vec<usize>,
    pub formula: KifNode,
    pub source_name: Option<String>,
}

/// A step of a proof graph with its texts.
pub struct NodeView {
    pub index: int,
    pub rule: Seq<char>,
    pub premises: Seq<int>,
    pub formula: KifTree,
    pub source_name: Option<Seq<char>>,
}

/// The places as integers.
pub open spec fn places(ps: Seq<usize>) -> Seq<int> {
    Seq::new(ps.len(), |i: int| ps[i] as int)
}

impl View for KifProofStep {
    type V = NodeView;

    open spec fn view(&self) -> NodeView {
        NodeView {
            index: self.index as int,
            rule: self.rule@,
            premises: places(self.premises@),
            formula: self.formula@,
            source_name: text_view(self.source_name),
        }
    }
}

/// The views of the steps of a proof graph.
pub open spec fn node_views(nodes: Seq<KifProofStep>) -> Seq<NodeView> {
    Seq::new(nodes.len(), |i: int| nodes[i]@)
}

/// The place of the first step called `id`, from `from` on.
pub open spec fn step_called(steps: Seq<StepView>, id: Seq<char>, from: int) -> Option<int>
    decreases steps.len() - from,
{
    if from < 0 || from >= steps.len() {
        None
    } else if steps[from].id == id {
        Some(from)
    } else {
        step_called(steps, id, from + 1)
    }
}

/// The places of the first `n` of the parents, those that are steps.
pub open spec fn premises_of(steps: Seq<StepView>, parents: Seq<Seq<char>>, n: nat) -> Seq<int>
    decreases n,
{
    if n == 0 || n > parents.len() {
        Seq::empty()
    } else {
        let before = premises_of(steps, parents, (n - 1) as nat);
        match step_called(steps, parents[n - 1], 0) {
            Some(k) => before.push(k),
            None => before,
        }
    }
}

/// What a step is called in the proof graph: a derived step by its rule, another
/// by its role.
pub open spec fn step_label(s: StepView) -> Seq<char> {
    match s.rule {
        Some(rule) => rule,
        None => s.role,
    }
}

/// The node of step `i` in the proof graph.
pub open spec fn node_of(steps: Seq<StepView>, i: int) -> NodeView {
    let s = steps[i];
    NodeView {
        index: i,
        rule: step_label(s),
        premises: premises_of(steps, s.parents, s.parents.len()),
        formula: s.formula,
        source_name: s.source_name,
    }
}

/// The proof graph of the steps.
pub open spec fn graph_of(steps: Seq<StepView>) -> Seq<NodeView> {
    Seq::new(steps.len(), |i: int| node_of(steps, i))
}

fn find_step(steps: &Vec<ProofStep>, id: &str) -> (r: Option<usize>)
    ensures
        match (r, step_called(step_views(steps@), id@, 0)) {
            (None, None) => true,
            (Some(a), Some(b)) => a == b,
            _ => false,
        },
{
    let ghost vs = step_views(steps@);
    let mut i: usize = 0;
    while i < steps.len()
        invariant
            i <= steps@.len(),
            vs == step_views(steps@),
            step_called(vs, id@, 0) == step_called(vs, id@, i as int),
        decreases steps@.len() - i,
    {
        assert(vs[i as int].id == steps@[i as int].id@);
        if same_text(steps[i].id.as_str(), id) {
            return Some(i);
        }
        i += 1;
    }
    None
}

fn find_premises(steps: &Vec<ProofStep>, parents: &Vec<String>) -> (r: Vec<usize>)
    ensures
        places(r@) == premises_of(step_views(steps@), texts(parents@), parents@.len()),
{
    let ghost vs = step_views(steps@);
    let ghost ps = texts(parents@);
    let mut out: Vec<usize> = Vec::new();
    let mut i: usize = 0;
    assert(places(out@) =~= Seq::empty());
    while i < parents.len()
        invariant
            i <= parents@.len(),
            vs == step_views(steps@),
            ps == texts(parents@),
            places(out@) == premises_of(vs, ps, i as nat),
        decreases parents@.len() - i,
    {
        assert(ps[i as int] == parents@[i as int]@);
        if let Some(k) = find_step(steps, parents[i].as_str()) {
            let ghost before = out@;
            out.push(k);
            assert(places(out@) =~= places(before).push(k as int));
        }
        i += 1;
    }
    out
}

/// The proof graph of the steps.
pub fn proof_steps_to_kif(steps: &Vec<ProofStep>) -> (r: Vec<KifProofStep>)
    ensures
        node_views(r@) == graph_of(step_views(steps@)),
{
    let ghost vs = step_views(steps@);
    let mut out: Vec<KifProofStep> = Vec::new();
    let mut i: usize = 0;
    while i < steps.len()
        invariant
            i <= steps@.len(),
            vs == step_views(steps@),
            out@.len() == i,
            forall|k: int| 0 <= k < i ==> (#[trigger] out@[k])@ == node_of(vs, k),
        decreases steps@.len() - i,
    {
        let s: &ProofStep = &steps[i];
        assert(vs[i as int] == s@);
        let rule: String = match &s.rule {
            Some(rule) => rule.clone(),
            None => s.role.clone(),
        };
        let premises: Vec<usize> = find_premises(steps, &s.parents);
        let source_name: Option<String> = match &s.source_name {
            Some(n) => Some(n.clone()),
            None => None,
        };
        let node = KifProofStep { index: i, rule, premises, formula: s.formula.clone(), source_name };
        assert(node@ == node_of(vs, i as int));
        out.push(node);
        i += 1;
    }
    assert(node_views(out@) =~= graph_of(vs));
    out
}

/// Some step has the role of a negated conjecture.
pub open spec fn uses_conjecture(steps: Seq<StepView>) -> bool {
    exists|i: int| 0 <= i < steps.len() && (#[trigger] steps[i]).role == "negated_conjecture"@
}

/// The verdict once the proof has been looked at: a proof that never uses the
/// negated conjecture shows that the sentences alone are contradictory.
pub open spec fn corrected(status: ProverStatus, mode: ProverMode, steps: Seq<StepView>) -> ProverStatus {
    if mode == ProverMode::Prove && status == ProverStatus::Proved && steps.len() > 0 && !uses_conjecture(steps) {
        ProverStatus::Inconsistent
    } else {
        status
    }
}

fn correct_status(status: ProverStatus, mode: ProverMode, steps: &Vec<ProofStep>) -> (r: ProverStatus)
    ensures
        r == corrected(status, mode, step_views(steps@)),
{
    if mode != ProverMode::Prove || status != ProverStatus::Proved || steps.len() == 0 {
        return status;
    }
    let ghost vs = step_views(steps@);
    let mut i: usize = 0;
    while i < steps.len()
        invariant
            i <= steps@.len(),
            vs == step_views(steps@),
            forall|k: int| 0 <= k < i ==> (#[trigger] vs[k]).role != "negated_conjecture"@,
        decreases steps@.len() - i,
    {
        assert(vs[i as int].role == steps@[i as int].role@);
        if same_text(steps[i].role.as_str(), "negated_conjecture") {
            assert(uses_conjecture(vs));
            return status;
        }
        i += 1;
    }
    ProverStatus::Inconsistent
}

/// The verdict of a transcript.
pub open spec fn transcript_status(output: Seq<char>, mode: ProverMode) -> ProverStatus {
    corrected(verdict(output, status_word(document(output)), mode), mode, steps_of(document(output)))
}

/// The proof graph of a transcript.
pub open spec fn transcript_graph(output: Seq<char>) -> Seq<NodeView> {
    graph_of(steps_of(document(output)))
}

/// The proof of a transcript may bind the variables of the conjecture: it was
/// asked to prove one and reports a theorem.
pub open spec fn transcript_answers(output: Seq<char>, mode: ProverMode) -> bool {
    mode == ProverMode::Prove && status_word(document(output)) == Some("Theorem"@)
}

/// What a transcript says: the verdict, the proof as a graph, and whether the
/// proof may bind the variables of the conjecture.
#[derive(Debug)]
pub struct VampireProofResult {
    pub status: ProverStatus,
    pub proof: Vec<KifProofStep>,
    pub answers: bool,
}

fn reports_theorem(word: &Option<String>) -> (r: bool)
    ensures
        r == (text_view(*word) == Some("Theorem"@)),
{
    match word {
        Some(w) => same_text(w.as_str(), "Theorem"),
        None => false,
    }
}

/// What reading an output gives.
pub open spec fn reading_of(r: VampireProofResult, output: Seq<char>, mode: ProverMode) -> bool {
    &&& r.status == transcript_status(output, mode)
    &&& node_views(r.proof@) == transcript_graph(output)
    &&& r.answers == transcript_answers(output, mode)
}

/// Reads a captured run's output.
pub fn parse_vampire_result(raw_output: &str, mode: ProverMode) -> (r: VampireProofResult)
    ensures
        reading_of(r, raw_output@, mode),
{
    let output: Vec<char> = chars_of(raw_output);
    let doc: Vec<DocItem> = parse_szs(&output);
    let word: Option<String> = szs_status_word(&doc);
    let steps: Vec<ProofStep> = docitems_to_proof_steps(&doc);
    let status: ProverStatus = correct_status(determine_status(&output, &word, mode), mode, &steps);
    let answers: bool = mode == ProverMode::Prove && reports_theorem(&word);
    VampireProofResult { status, proof: proof_steps_to_kif(&steps), answers }
}

/// The run says at place `i` that it ended with a refutation, not that it found
/// none.
pub open spec fn refuted_at(s: Seq<char>, i: int) -> bool {
    occurs_at(s, "Termination reason: Refutation"@, i) && !occurs_at(
        s,
        "Termination reason: Refutation not found"@,
        i,
    )
}

/// The run says that it ended with a refutation.
pub open spec fn refuted(s: Seq<char>) -> bool {
    exists|i: int| #[trigger] refuted_at(s, i)
}

fn ended_in_refutation(output: &Vec<char>) -> (r: bool)
    ensures
        r == refuted(output@),
{
    let found: Vec<char> = chars_of("Termination reason: Refutation");
    let missed: Vec<char> = chars_of("Termination reason: Refutation not found");
    let mut i: usize = 0;
    while i < output.len()
        invariant
            i <= output@.len(),
            found@ == "Termination reason: Refutation"@,
            missed@ == "Termination reason: Refutation not found"@,
            forall|k: int| 0 <= k < i ==> !#[trigger] refuted_at(output@, k),
        decreases output@.len() - i,
    {
        if stands_at(output, &found, i) && !stands_at(output, &missed, i) {
            assert(refuted_at(output@, i as int));
            return true;
        }
        i += 1;
    }
    assert(forall|k: int| refuted_at(output@, k) ==> 0 <= k < output@.len()) by {
        reveal_strlit("Termination reason: Refutation");
    }
    false
}

/// Why a run ended without a verdict; nothing where it ended with one or does not
/// say.
pub open spec fn termination(s: Seq<char>) -> Option<TerminationReason> {
    if has_text(s, "SZS status Theorem"@) || has_text(s, "SZS status Unsatisfiable"@) || has_text(
        s,
        "SZS status ContradictoryAxioms"@,
    ) || refuted(s) {
        None
    } else if timed_out(s) {
        Some(TerminationReason::TimeLimit)
    } else if has_text(s, "Memory limit"@) || has_text(s, "Refutation not found, incomplete strategy"@) || has_text(
        s,
        "Refutation not found, non-redundant clauses discarded"@,
    ) {
        Some(TerminationReason::ResourceOut)
    } else if has_text(s, "Termination reason: Satisfiable"@) || has_text(s, "Termination reason: Saturation"@)
        || has_text(s, "SZS status CounterSatisfiable"@) || has_text(s, "SZS status Satisfiable"@) {
        Some(TerminationReason::Saturation)
    } else if has_text(s, "SZS status GaveUp"@) || has_text(s, "Termination reason:"@) {
        Some(TerminationReason::GaveUp)
    } else {
        None
    }
}

/// Why a run ended without a verdict.
pub fn extract_termination_reason(output: &Vec<char>) -> (r: Option<TerminationReason>)
    ensures
        r == termination(output@),
{
    if contains_text(output, "SZS status Theorem") || contains_text(output, "SZS status Unsatisfiable")
        || contains_text(output, "SZS status ContradictoryAxioms") || ended_in_refutation(output) {
        return None;
    }
    if is_timeout(output) {
        return Some(TerminationReason::TimeLimit);
    }
    if contains_text(output, "Memory limit") || contains_text(output, "Refutation not found, incomplete strategy")
        || contains_text(output, "Refutation not found, non-redundant clauses discarded") {
        return Some(TerminationReason::ResourceOut);
    }
    if contains_text(output, "Termination reason: Satisfiable") || contains_text(
        output,
        "Termination reason: Saturation",
    ) || contains_text(output, "SZS status CounterSatisfiable") || contains_text(output, "SZS status Satisfiable") {
        return Some(TerminationReason::Saturation);
    }
    if contains_text(output, "SZS status GaveUp") || contains_text(output, "Termination reason:") {
        return Some(TerminationReason::GaveUp);
    }
    None
}

/// The line reports an error.
pub open spec fn reports_error(line: Seq<char>) -> bool {
    has_text(line, "User error"@) || has_text(line, "Parse error"@) || has_text(line, "Syntax error"@)
}

/// The report made of a line and the next: the line, and behind it the next one
/// unless that is empty or a comment.
pub open spec fn report_of(line: Seq<char>, rest: Seq<Seq<char>>) -> Seq<char> {
    let head = trimmed(line);
    if rest.len() == 0 {
        head
    } else {
        let next = trimmed(rest[0]);
        if next.len() == 0 || next[0] == '%' {
            head
        } else {
            head + " "@ + next
        }
    }
}

/// The line is looked for: one that names an error of the user, or else any
/// that reports an error.
pub open spec fn telling(line: Seq<char>, user: bool) -> bool {
    if user {
        has_text(line, "User error"@)
    } else {
        reports_error(line)
    }
}

/// The report of the first of the lines that is looked for.
pub open spec fn first_report(lines: Seq<Seq<char>>, user: bool) -> Option<Seq<char>>
    decreases lines.len(),
{
    if lines.len() == 0 {
        None
    } else if telling(lines[0], user) {
        Some(report_of(lines[0], lines.drop_first()))
    } else {
        first_report(lines.drop_first(), user)
    }
}

/// The report of the first line that names an error of the user; where there is
/// none, of the first that reports an error.
pub open spec fn error_report(lines: Seq<Seq<char>>) -> Option<Seq<char>> {
    match first_report(lines, true) {
        Some(r) => Some(r),
        None => first_report(lines, false),
    }
}

fn line_at(output: &Vec<char>, from: usize, end: usize) -> (r: Vec<char>)
    requires
        from <= end <= output@.len(),
    ensures
        r@ == without_return(output@.subrange(from as int, end as int)),
{
    let ghost whole = output@.subrange(from as int, end as int);
    let to: usize = if end > from && output[end - 1] == '\r' {
        end - 1
    } else {
        end
    };
    proof {
        if end > from {
            assert(whole.last() == output@[end - 1]);
        }
        assert(output@.subrange(from as int, to as int) =~= without_return(whole));
    }
    chars_of(text_between(output, from, to).as_str())
}

fn report_in(output: &Vec<char>, user: bool) -> (r: Option<String>)
    ensures
        text_view(r) == first_report(lines_from(output@, 0), user),
{
    let mut i: usize = 0;
    while i < output.len()
        invariant
            i <= output@.len(),
            first_report(lines_from(output@, 0), user) == first_report(lines_from(output@, i as int), user),
        decreases output@.len() - i,
    {
        let end: usize = end_of_line(output, i);
        let line: Vec<char> = line_at(output, i, end);
        let ghost lines = lines_from(output@, i as int);
        proof {
            assert(lines[0] == line@);
            assert(lines.drop_first() =~= lines_from(output@, end + 1));
        }
        if contains_text(&line, "User error") || (!user && (contains_text(&line, "Parse error") || contains_text(
            &line,
            "Syntax error",
        ))) {
            assert(line@.subrange(0, line@.len() as int) =~= line@);
            let mut msg: String = trim_between(&line, 0, line.len());
            if output.len() - end > 1 {
                let next_end: usize = end_of_line(output, end + 1);
                let next_line: Vec<char> = line_at(output, end + 1, next_end);
                assert(lines.drop_first()[0] == next_line@);
                assert(next_line@.subrange(0, next_line@.len() as int) =~= next_line@);
                let next: String = trim_between(&next_line, 0, next_line.len());
                if next.as_str().unicode_len() > 0 && next.as_str().get_char(0) != '%' {
                    msg.append(" ");
                    msg.append(next.as_str());
                }
            }
            return Some(msg);
        }
        assert(first_report(lines, user) == first_report(lines.drop_first(), user));
        if end >= output.len() {
            assert(lines_from(output@, end + 1) =~= Seq::empty());
            return None;
        }
        i = end + 1;
    }
    None
}

/// The most telling line of a report that the input was rejected: the one that
/// names an error of the user, else the first that mentions an error.
pub fn extract_input_error(output: &Vec<char>) -> (r: Option<String>)
    ensures
        text_view(r) == error_report(lines_from(output@, 0)),
{
    match report_in(output, true) {
        Some(r) => Some(r),
        None => report_in(output, false),
    }
}

/// The name of a verdict.
pub fn status_label(s: ProverStatus) -> (r: &'static str)
    ensures
        r@ == (match s {
            ProverStatus::Proved => "Proved"@,
            ProverStatus::Disproved => "Disproved"@,
            ProverStatus::Consistent => "Consistent"@,
            ProverStatus::Inconsistent => "Inconsistent"@,
            ProverStatus::Timeout => "Timeout"@,
            ProverStatus::InputError => "InputError"@,
            ProverStatus::Unknown => "Unknown"@,
        }),
{
    match s {
        ProverStatus::Proved => "Proved",
        ProverStatus::Disproved => "Disproved",
        ProverStatus::Consistent => "Consistent",
        ProverStatus::Inconsistent => "Inconsistent",
        ProverStatus::Timeout => "Timeout",
        ProverStatus::InputError => "InputError",
        ProverStatus::Unknown => "Unknown",
    }
}

/// The section of the transcript that holds the proof: from the line after the
/// start mark up to the end mark.
pub open spec fn proof_section(s: Seq<char>) -> Seq<char> {
    match first_at(s, "SZS output start"@, 0) {
        None => Seq::empty(),
        Some(a) => match first_at(s, "\n"@, a) {
            None => Seq::empty(),
            Some(nl) => match first_at(s, "SZS output end"@, nl + 1) {
                None => Seq::empty(),
                Some(b) => s.subrange(nl + 1, b),
            },
        },
    }
}

fn section_of(output: &Vec<char>) -> (r: String)
    ensures
        r@ == proof_section(output@),
{
    let start: Vec<char> = chars_of("SZS output start");
    let feed: Vec<char> = chars_of("\n");
    let stop: Vec<char> = chars_of("SZS output end");
    proof {
        reveal_strlit("\n");
    }
    match find_from(output, &start, 0) {
        None => String::new(),
        Some(a) => match find_from(output, &feed, a) {
            None => String::new(),
            Some(nl) => {
                let total: usize = output.len();
                assert(nl + 1 <= total);
                match find_from(output, &stop, nl + 1) {
                    None => String::new(),
                    Some(b) => text_between(output, nl + 1, b),
                }
            },
        },
    }
}

/// What a run gave: the verdict, the output itself, why it ended, the proof as a
/// graph and as it was printed, whether the proof may bind the variables of the
/// conjecture, and the report of a rejected input.
#[derive(Debug)]
pub struct ProverResult {
    pub status: ProverStatus,
    pub raw_output: String,
    pub termination: Option<TerminationReason>,
    pub answers: bool,
    pub proof_kif: Vec<KifProofStep>,
    pub proof_tptp: String,
    pub rejection: Option<String>,
}

/// What is reported of a transcript whose input was rejected.
pub open spec fn rejection_report(output: Seq<char>, mode: ProverMode) -> Option<Seq<char>> {
    if transcript_status(output, mode) == ProverStatus::InputError {
        match error_report(lines_from(output, 0)) {
            Some(report) => Some(report),
            None => Some(trimmed(output)),
        }
    } else {
        None
    }
}

/// What a run that wrote `stdout` and `stderr` gives.
pub open spec fn result_of(r: ProverResult, stdout: Seq<char>, stderr: Seq<char>, mode: ProverMode) -> bool {
    let output = stdout + stderr;
    &&& r.raw_output@ == output
    &&& r.status == transcript_status(output, mode)
    &&& r.termination == termination(output)
    &&& r.answers == transcript_answers(output, mode)
    &&& node_views(r.proof_kif@) == transcript_graph(output)
    &&& r.proof_tptp@ == (if steps_of(document(output)).len() > 0 {
        proof_section(output)
    } else {
        Seq::empty()
    })
    &&& text_view(r.rejection) == rejection_report(output, mode)
}

/// Reads what a run wrote on its two outputs.
pub fn result_from_transcript(stdout: &str, stderr: &str, mode: ProverMode) -> (r: ProverResult)
    ensures
        result_of(r, stdout@, stderr@, mode),
{
    let mut raw_output: String = stdout.to_owned();
    raw_output.append(stderr);
    let output: Vec<char> = chars_of(raw_output.as_str());
    let doc: Vec<DocItem> = parse_szs(&output);
    let word: Option<String> = szs_status_word(&doc);
    let steps: Vec<ProofStep> = docitems_to_proof_steps(&doc);
    let status: ProverStatus = correct_status(determine_status(&output, &word, mode), mode, &steps);
    let answers: bool = mode == ProverMode::Prove && reports_theorem(&word);
    let rejection: Option<String> = if status == ProverStatus::InputError {
        match extract_input_error(&output) {
            Some(report) => Some(report),
            None => {
                assert(output@.subrange(0, output@.len() as int) =~= output@);
                Some(trim_between(&output, 0, output.len()))
            },
        }
    } else {
        None
    };
    assert(step_views(steps@).len() == steps@.len());
    let proof_tptp: String = if steps.len() > 0 {
        section_of(&output)
    } else {
        String::new()
    };
    ProverResult {
        status,
        raw_output,
        termination: extract_termination_reason(&output),
        answers,
        proof_kif: proof_steps_to_kif(&steps),
        proof_tptp,
        rejection,
    }
}

/// A transcript without a named step has no proof, neither as a graph nor as it
/// was printed.
pub proof fn law_no_steps_no_proof(r: ProverResult, stdout: Seq<char>, stderr: Seq<char>, mode: ProverMode)
    requires
        result_of(r, stdout, stderr, mode),
        steps_of(document(stdout + stderr)).len() == 0,
    ensures
        r.proof_kif@.len() == 0,
        r.proof_tptp@.len() == 0,
{
    assert(node_views(r.proof_kif@).len() == r.proof_kif@.len());
}

/// The verdict, the graph and the word on bindings are those that reading the
/// joined output gives.
pub proof fn law_runs_read_as_their_output(
    r: ProverResult,
    v: VampireProofResult,
    stdout: Seq<char>,
    stderr: Seq<char>,
    mode: ProverMode,
)
    requires
        result_of(r, stdout, stderr, mode),
        reading_of(v, r.raw_output@, mode),
    ensures
        r.raw_output@ == stdout + stderr,
        r.status == v.status,
        r.answers == v.answers,
        node_views(r.proof_kif@) == node_views(v.proof@),
{
}

/// A run that proves its conjecture and prints a proof has used the negated
/// conjecture in it.
pub proof fn law_a_proof_uses_its_conjecture(output: Seq<char>)
    requires
        transcript_status(output, ProverMode::Prove) == ProverStatus::Proved,
    ensures
        transcript_graph(output).len() > 0 ==> uses_conjecture(steps_of(document(output))),
{
}

/// A rejected input is never taken for a verdict, whatever the run was asked.
pub proof fn law_rejected_input_is_no_verdict(output: Seq<char>, mode: ProverMode)
    ensures
        rejected(output) <==> transcript_status(output, mode) == ProverStatus::InputError,
{
}

/// A run asked for consistency neither proves nor disproves.
pub proof fn law_modes_answer_their_own_question(output: Seq<char>)
    ensures
        transcript_status(output, ProverMode::CheckConsistency) != ProverStatus::Proved,
        transcript_status(output, ProverMode::CheckConsistency) != ProverStatus::Disproved,
        transcript_status(output, ProverMode::Prove) != ProverStatus::Consistent,
{
}

proof fn lemma_step_called(steps: Seq<StepView>, id: Seq<char>, from: int)
    ensures
        step_called(steps, id, from) matches Some(k) ==> 0 <= k < steps.len() && steps[k].id == id,
    decreases steps.len() - from,
{
    if 0 <= from < steps.len() && steps[from].id != id {
        lemma_step_called(steps, id, from + 1);
    }
}

proof fn lemma_premises(steps: Seq<StepView>, parents: Seq<Seq<char>>, n: nat, k: int)
    requires
        0 <= k < premises_of(steps, parents, n).len(),
    ensures
        0 <= premises_of(steps, parents, n)[k] < steps.len(),
    decreases n,
{
    let before = premises_of(steps, parents, (n - 1) as nat);
    lemma_step_called(steps, parents[n - 1], 0);
    if k < before.len() {
        lemma_premises(steps, parents, (n - 1) as nat, k);
    }
}

/// Every premise in a proof graph is one of its steps, and every step stands at
/// the place it names.
pub proof fn law_premises_are_steps(output: Seq<char>, i: int, k: int)
    requires
        0 <= i < transcript_graph(output).len(),
        0 <= k < transcript_graph(output)[i].premises.len(),
    ensures
        transcript_graph(output)[i].index == i,
        0 <= transcript_graph(output)[i].premises[k] < transcript_graph(output).len(),
{
    let steps = steps_of(document(output));
    lemma_premises(steps, steps[i].parents, steps[i].parents.len(), k);
}

/// A derived step is called by its rule, never by its role.
pub proof fn law_derived_steps_show_their_rule(steps: Seq<StepView>, i: int)
    requires
        0 <= i < steps.len(),
        steps[i].rule is Some,
    ensures
        graph_of(steps)[i].rule == steps[i].rule->0,
{
}

/// The number of statements among the first `n` items.
pub open spec fn stmt_count(doc: Seq<ItemView>, n: nat) -> nat
    decreases n,
{
    if n == 0 || n > doc.len() {
        0
    } else {
        stmt_count(doc, (n - 1) as nat) + if doc[n - 1] is Stmt {
            1nat
        } else {
            0
        }
    }
}

proof fn lemma_stmt_count(doc: Seq<ItemView>, item: ItemView, n: nat)
    requires
        n <= doc.len(),
    ensures
        stmt_count(doc.push(item), n) == stmt_count(doc, n),
    decreases n,
{
    if n > 0 {
        lemma_stmt_count(doc, item, (n - 1) as nat);
        assert(doc.push(item)[n - 1] == doc[n - 1]);
    }
}

/// Every statement of a document is a step, in the order of the document, and nothing
/// else is: with its name, its role and its formula; with the rule and the parents of
/// an inference; and with the name of a sentence of the knowledge base that it was
/// taken from.
pub proof fn law_every_statement_is_a_step(doc: Seq<ItemView>, i: int)
    requires
        0 <= i < doc.len(),
    ensures
        steps_of(doc).len() == stmt_count(doc, doc.len()),
        doc[i] matches ItemView::Stmt { name, role, formula, source } ==> {
            let k = stmt_count(doc, i as nat) as int;
            let s = steps_of(doc)[k];
            &&& k < steps_of(doc).len()
            &&& s.id == name && s.role == role && s.formula == formula
            &&& source matches SourceView::Inference { rule, parents } ==> s.rule == Some(rule) && s.parents == parents
            &&& !(source is Inference) ==> s.rule is None && s.parents.len() == 0
            &&& source matches SourceView::Input(Some(n)) ==> (n.len() >= 3 && n.take(3) == "kb_"@ ==> s.source_name == Some(
                n,
            ))
            &&& s.source_name matches Some(n) ==> source == SourceView::Input(Some(n)) && n.len() >= 3 && n.take(3)
                == "kb_"@
        },
    decreases doc.len(),
{
    reveal_strlit("kb_");
    let d = doc.drop_last();
    assert(doc =~= d.push(doc.last()));
    lemma_stmt_count(d, doc.last(), d.len());
    if d.len() > 0 {
        if i < d.len() {
            law_every_statement_is_a_step(d, i);
            lemma_stmt_count(d, doc.last(), i as nat);
            assert(d[i] == doc[i]);
        } else {
            law_every_statement_is_a_step(d, 0);
        }
    }
    if let ItemView::Stmt { name, role, formula, source } = doc[i] {
        if let SourceView::Input(Some(n)) = source {
            if n.len() >= 3 {
                assert(n.take(3)[0] == n[0] && n.take(3)[1] == n[1] && n.take(3)[2] == n[2]);
                assert("kb_"@[0] == 'k' && "kb_"@[1] == 'b' && "kb_"@[2] == '_');
                if own_name(n) {
                    assert(n.take(3) =~= "kb_"@);
                }
            }
        }
    }
}

proof fn lemma_first_called(steps: Seq<StepView>, id: Seq<char>, from: int, k: int)
    requires
        0 <= from,
    ensures
        step_called(steps, id, from) matches Some(p) ==> from <= p < steps.len() && steps[p].id == id && (from <= k < p
            ==> steps[k].id != id),
        step_called(steps, id, from) is None && from <= k < steps.len() ==> steps[k].id != id,
    decreases steps.len() - from,
{
    if from < steps.len() && steps[from].id != id {
        lemma_first_called(steps, id, from + 1, k);
    }
}

/// Some step has the name.
pub open spec fn is_step(steps: Seq<StepView>, id: Seq<char>) -> bool {
    exists|k: int| 0 <= k < steps.len() && (#[trigger] steps[k]).id == id
}

proof fn lemma_premises_in_order(steps: Seq<StepView>, parents: Seq<Seq<char>>, n: nat)
    requires
        n <= parents.len(),
        forall|m: int| 0 <= m < n ==> is_step(steps, #[trigger] parents[m]),
    ensures
        premises_of(steps, parents, n).len() == n,
        forall|m: int| 0 <= m < n ==> step_called(steps, parents[m], 0) == Some(#[trigger] premises_of(steps, parents, n)[m]),
    decreases n,
{
    if n > 0 {
        lemma_premises_in_order(steps, parents, (n - 1) as nat);
        assert(is_step(steps, parents[n - 1]));
        let k = choose|k: int| 0 <= k < steps.len() && (#[trigger] steps[k]).id == parents[n - 1];
        lemma_first_called(steps, parents[n - 1], 0, k);
        let before = premises_of(steps, parents, (n - 1) as nat);
        let all = premises_of(steps, parents, n);
        assert forall|m: int| 0 <= m < n implies step_called(steps, parents[m], 0) == Some(#[trigger] all[m]) by {
            if m < n - 1 {
                assert(all[m] == before[m]);
            }
        }
    }
}

/// The premises of a derived step in the graph are the steps that its parents name, in
/// the parents' order, of two with one name the first; the formula is the step's own;
/// the rule is that of the inference, else the role.
pub proof fn law_the_graph_links_steps_to_their_parents(steps: Seq<StepView>, i: int, m: int, k: int)
    requires
        0 <= i < steps.len(),
    ensures
        graph_of(steps).len() == steps.len(),
        graph_of(steps)[i].index == i,
        graph_of(steps)[i].formula == steps[i].formula,
        graph_of(steps)[i].source_name == steps[i].source_name,
        graph_of(steps)[i].rule == (if steps[i].rule is Some {
            steps[i].rule->0
        } else {
            steps[i].role
        }),
        (forall|p: int| 0 <= p < steps[i].parents.len() ==> is_step(steps, #[trigger] steps[i].parents[p]))
            ==> graph_of(steps)[i].premises.len() == steps[i].parents.len() && (0 <= m < steps[i].parents.len() ==> {
            let p = graph_of(steps)[i].premises[m];
            0 <= p < steps.len() && steps[p].id == steps[i].parents[m] && (0 <= k < p ==> steps[k].id
                != steps[i].parents[m])
        }),
{
    let parents = steps[i].parents;
    if forall|p: int| 0 <= p < parents.len() ==> is_step(steps, #[trigger] parents[p]) {
        lemma_premises_in_order(steps, parents, parents.len());
        if 0 <= m < parents.len() {
            lemma_first_called(steps, parents[m], 0, k);
        }
    }
}

/// The status of a document is that of its first status line.
pub proof fn law_the_first_status_counts(doc: Seq<ItemView>, i: int, w: Seq<char>)
    requires
        0 <= i < doc.len(),
        doc[i] == ItemView::Status(w),
        forall|k: int| 0 <= k < i ==> (#[trigger] doc[k]) is Stmt,
    ensures
        status_word(doc) == Some(w),
    decreases doc.len(),
{
    let d = doc.drop_last();
    if i < d.len() {
        assert(d[i] == doc[i]);
        law_the_first_status_counts(d, i, w);
    } else {
        lemma_no_status(d);
    }
}

proof fn lemma_no_status(doc: Seq<ItemView>)
    requires
        forall|k: int| 0 <= k < doc.len() ==> (#[trigger] doc[k]) is Stmt,
    ensures
        status_word(doc) is None,
    decreases doc.len(),
{
    if doc.len() > 0 {
        lemma_no_status(doc.drop_last());
        assert(doc[doc.len() - 1] is Stmt);
    }
}

proof fn lemma_status_words()
    ensures
        "Theorem"@ != "Unsatisfiable"@ && "Theorem"@ != "ContradictoryAxioms"@ && "Theorem"@ != "CounterSatisfiable"@
            && "Theorem"@ != "Satisfiable"@,
        "Unsatisfiable"@ != "ContradictoryAxioms"@ && "Unsatisfiable"@ != "CounterSatisfiable"@ && "Unsatisfiable"@
            != "Satisfiable"@,
        "ContradictoryAxioms"@ != "CounterSatisfiable"@ && "ContradictoryAxioms"@ != "Satisfiable"@
            && "CounterSatisfiable"@ != "Satisfiable"@,
{
    reveal_strlit("Theorem");
    reveal_strlit("Unsatisfiable");
    reveal_strlit("ContradictoryAxioms");
    reveal_strlit("CounterSatisfiable");
    reveal_strlit("Satisfiable");
    assert("Theorem"@.len() == 7 && "Unsatisfiable"@.len() == 13 && "ContradictoryAxioms"@.len() == 19);
    assert("CounterSatisfiable"@.len() == 18 && "Satisfiable"@.len() == 11);
}

/// What the status word of an accepted problem says of a conjecture: a theorem or an
/// unsatisfiable problem proves it, if the proof that is printed, if any, uses its
/// negation, and else shows the sentences inconsistent; contradictory sentences are
/// inconsistent; a counterexample disproves it; any other word leaves it open, for want
/// of time where the run says so.
pub proof fn law_verdicts_on_a_conjecture(output: Seq<char>)
    requires
        !rejected(output),
    ensures
        ({
            let steps = steps_of(document(output));
            let used = steps.len() == 0 || exists|i: int|
                0 <= i < steps.len() && (#[trigger] steps[i]).role == "negated_conjecture"@;
            let r = transcript_status(output, ProverMode::Prove);
            match status_word(document(output)) {
                Some(w) => {
                    &&& w == "Theorem"@ || w == "Unsatisfiable"@ ==> r == if used {
                        ProverStatus::Proved
                    } else {
                        ProverStatus::Inconsistent
                    }
                    &&& w == "ContradictoryAxioms"@ ==> r == ProverStatus::Inconsistent
                    &&& w == "CounterSatisfiable"@ ==> r == ProverStatus::Disproved
                    &&& w != "Theorem"@ && w != "Unsatisfiable"@ && w != "ContradictoryAxioms"@ && w
                        != "CounterSatisfiable"@ ==> r == if timed_out(output) {
                        ProverStatus::Timeout
                    } else {
                        ProverStatus::Unknown
                    }
                },
                None => r == if timed_out(output) {
                    ProverStatus::Timeout
                } else {
                    ProverStatus::Unknown
                },
            }
        }),
{
    lemma_status_words();
}

/// What the status word of an accepted problem says of consistency: whatever has a
/// model is consistent, and whatever has none is not.
pub proof fn law_verdicts_on_consistency(output: Seq<char>)
    requires
        !rejected(output),
    ensures
        ({
            let r = transcript_status(output, ProverMode::CheckConsistency);
            match status_word(document(output)) {
                Some(w) => {
                    &&& w == "Satisfiable"@ || w == "CounterSatisfiable"@ ==> r == ProverStatus::Consistent
                    &&& w == "Unsatisfiable"@ || w == "Theorem"@ || w == "ContradictoryAxioms"@ ==> r
                        == ProverStatus::Inconsistent
                    &&& w != "Satisfiable"@ && w != "CounterSatisfiable"@ && w != "Unsatisfiable"@ && w != "Theorem"@ && w
                        != "ContradictoryAxioms"@ ==> r == if timed_out(output) {
                        ProverStatus::Timeout
                    } else {
                        ProverStatus::Unknown
                    }
                },
                None => r == if timed_out(output) {
                    ProverStatus::Timeout
                } else {
                    ProverStatus::Unknown
                },
            }
        }),
{
    lemma_status_words();
}

/// The run says that it was successful: it reports a refutation.
pub open spec fn succeeded(s: Seq<char>) -> bool {
    has_text(s, "SZS status Theorem"@) || has_text(s, "SZS status Unsatisfiable"@) || has_text(
        s,
        "SZS status ContradictoryAxioms"@,
    ) || exists|i: int|
        #[trigger] occurs_at(s, "Termination reason: Refutation"@, i) && !occurs_at(
            s,
            "Termination reason: Refutation not found"@,
            i,
        )
}

/// Why a run ended without success: for want of time if any of the three banners for
/// that stands in the output; else for want of memory or completeness; else since
/// nothing was left to derive; else it gave up, if it says that it ended at all.
pub proof fn law_why_a_run_ended(s: Seq<char>)
    ensures
        succeeded(s) ==> termination(s) is None,
        !succeeded(s) && (has_text(s, "SZS status Timeout"@) || has_text(s, "Termination reason: Time limit"@) || has_text(
            s,
            "Time limit reached"@,
        )) ==> termination(s) == Some(TerminationReason::TimeLimit),
        termination(s) == Some(TerminationReason::TimeLimit) ==> timed_out(s),
        !succeeded(s) && !timed_out(s) ==> (termination(s) == Some(TerminationReason::ResourceOut) <==> has_text(
            s,
            "Memory limit"@,
        ) || has_text(s, "Refutation not found, incomplete strategy"@) || has_text(
            s,
            "Refutation not found, non-redundant clauses discarded"@,
        )),
        !succeeded(s) && !timed_out(s) && termination(s) != Some(TerminationReason::ResourceOut) ==> (termination(s) == Some(
            TerminationReason::Saturation,
        ) <==> has_text(s, "Termination reason: Satisfiable"@) || has_text(s, "Termination reason: Saturation"@) || has_text(
            s,
            "SZS status CounterSatisfiable"@,
        ) || has_text(s, "SZS status Satisfiable"@)),
        termination(s) == Some(TerminationReason::GaveUp) ==> has_text(s, "SZS status GaveUp"@) || has_text(
            s,
            "Termination reason:"@,
        ),
        !succeeded(s) && termination(s) is None ==> !has_text(s, "SZS status GaveUp"@) && !has_text(
            s,
            "Termination reason:"@,
        ),
        termination(s) != Some(TerminationReason::Other),
{
    if exists|i: int|
        #[trigger] occurs_at(s, "Termination reason: Refutation"@, i) && !occurs_at(
            s,
            "Termination reason: Refutation not found"@,
            i,
        ) {
        let i = choose|i: int|
            #[trigger] occurs_at(s, "Termination reason: Refutation"@, i) && !occurs_at(
                s,
                "Termination reason: Refutation not found"@,
                i,
            );
        assert(refuted_at(s, i));
    }
    if refuted(s) {
        let i = choose|i: int| #[trigger] refuted_at(s, i);
        assert(occurs_at(s, "Termination reason: Refutation"@, i));
    }
}

/// The printed proof is the text from behind the line of the first start mark up to
/// the next end mark.
pub proof fn law_the_printed_proof_is_cut_out(s: Seq<char>, a: int, nl: int, b: int)
    requires
        0 <= a <= nl,
        occurs_at(s, "SZS output start"@, a),
        forall|k: int| 0 <= k < a ==> !#[trigger] occurs_at(s, "SZS output start"@, k),
        nl < b,
        nl < s.len(),
        s[nl] == '\n',
        forall|k: int| a <= k < nl ==> #[trigger] s[k] != '\n',
        occurs_at(s, "SZS output end"@, b),
        forall|k: int| nl < k < b ==> !#[trigger] occurs_at(s, "SZS output end"@, k),
    ensures
        proof_section(s) == s.subrange(nl + 1, b),
{
    reveal_strlit("\n");
    lemma_first_is(s, "SZS output start"@, 0, a);
    assert("\n"@ =~= seq!['\n']);
    assert(occurs_at(s, "\n"@, nl)) by {
        assert(s.subrange(nl, nl + 1) =~= seq!['\n']);
    }
    assert forall|k: int| a <= k < nl implies !#[trigger] occurs_at(s, "\n"@, k) by {
        if occurs_at(s, "\n"@, k) {
            assert(s.subrange(k, k + 1)[0] == '\n');
            assert(s[k] != '\n');
        }
    }
    lemma_first_is(s, "\n"@, a, nl);
    lemma_first_is(s, "SZS output end"@, nl + 1, b);
}

proof fn lemma_first_is(s: Seq<char>, pat: Seq<char>, from: int, i: int)
    requires
        0 <= from <= i,
        occurs_at(s, pat, i),
        forall|k: int| from <= k < i ==> !#[trigger] occurs_at(s, pat, k),
    ensures
        first_at(s, pat, from) == Some(i),
    decreases i - from,
{
    if from < i {
        lemma_first_is(s, pat, from + 1, i);
    }
}

/// The report of a rejected input is the first line that names an error of the user,
/// and else the first that reports any error, without the white space around it; the
/// next line stands behind it, unless that is empty or a comment.
pub proof fn law_the_report_of_a_rejection(lines: Seq<Seq<char>>, i: int)
    requires
        0 <= i < lines.len(),
        (has_text(lines[i], "User error"@) && forall|k: int| 0 <= k < i ==> !has_text(#[trigger] lines[k], "User error"@)) || ((
        has_text(lines[i], "Parse error"@) || has_text(lines[i], "Syntax error"@)) && (forall|k: int|
            0 <= k < lines.len() ==> !has_text(#[trigger] lines[k], "User error"@)) && forall|k: int|
            0 <= k < i ==> !has_text(#[trigger] lines[k], "Parse error"@) && !has_text(lines[k], "Syntax error"@)),
    ensures
        i + 1 < lines.len() && trimmed(lines[i + 1]).len() > 0 && trimmed(lines[i + 1])[0] != '%' ==> error_report(lines)
            == Some(trimmed(lines[i]) + " "@ + trimmed(lines[i + 1])),
        !(i + 1 < lines.len() && trimmed(lines[i + 1]).len() > 0 && trimmed(lines[i + 1])[0] != '%') ==> error_report(lines)
            == Some(trimmed(lines[i])),
{
    if has_text(lines[i], "User error"@) && forall|k: int| 0 <= k < i ==> !has_text(#[trigger] lines[k], "User error"@) {
        lemma_report_at(lines, true, i);
    } else {
        lemma_no_report(lines, true);
        assert(!has_text(lines[i], "User error"@));
        lemma_report_at(lines, false, i);
    }
}

proof fn lemma_report_at(lines: Seq<Seq<char>>, user: bool, i: int)
    requires
        0 <= i < lines.len(),
        telling(lines[i], user),
        forall|k: int| 0 <= k < i ==> !telling(#[trigger] lines[k], user),
    ensures
        first_report(lines, user) == Some(report_of(lines[i], lines.subrange(i + 1, lines.len() as int))),
    decreases lines.len(),
{
    let rest = lines.drop_first();
    if i > 0 {
        assert(!telling(lines[0], user));
        assert(rest[i - 1] == lines[i]);
        assert forall|k: int| 0 <= k < i - 1 implies !telling(#[trigger] rest[k], user) by {
            assert(rest[k] == lines[k + 1]);
        }
        lemma_report_at(rest, user, i - 1);
        assert(rest.subrange(i, rest.len() as int) =~= lines.subrange(i + 1, lines.len() as int));
    } else {
        assert(rest =~= lines.subrange(1, lines.len() as int));
    }
}

proof fn lemma_no_report(lines: Seq<Seq<char>>, user: bool)
    requires
        forall|k: int| 0 <= k < lines.len() ==> !telling(#[trigger] lines[k], user),
    ensures
        first_report(lines, user) is None,
    decreases lines.len(),
{
    if lines.len() > 0 {
        let rest = lines.drop_first();
        assert(!telling(lines[0], user));
        assert forall|k: int| 0 <= k < rest.len() implies !telling(#[trigger] rest[k], user) by {
            assert(rest[k] == lines[k + 1]);
        }
        lemma_no_report(rest, user);
    }
}

/// Answers are looked for exactly where a conjecture was asked about and the first status
/// of the transcript calls it a theorem.
pub proof fn law_answers_belong_to_theorems(output: Seq<char>, mode: ProverMode)
    ensures
        transcript_answers(output, ProverMode::CheckConsistency) == false,
        transcript_answers(output, mode) ==> status_word(document(output)) == Some("Theorem"@),
        status_word(document(output)) == Some("Theorem"@) ==> transcript_answers(output, ProverMode::Prove),
{
}

/// A proof in which no step is the denied conjecture shows that the premises contradict
/// each other; one in which some step is leaves the verdict, and so does a transcript
/// without steps.
pub proof fn law_proofs_without_the_conjecture(status: ProverStatus, mode: ProverMode, steps: Seq<StepView>, i: int)
    ensures
        mode == ProverMode::Prove && status == ProverStatus::Proved && steps.len() > 0 && (forall|k: int|
            0 <= k < steps.len() ==> (#[trigger] steps[k]).role != "negated_conjecture"@) ==> corrected(status, mode, steps)
            == ProverStatus::Inconsistent,
        0 <= i < steps.len() && steps[i].role == "negated_conjecture"@ ==> corrected(status, mode, steps) == status,
        steps.len() == 0 || status != ProverStatus::Proved || mode != ProverMode::Prove ==> corrected(status, mode, steps)
            == status,
{
    if 0 <= i < steps.len() && steps[i].role == "negated_conjecture"@ {
        assert(uses_conjecture(steps));
    }
}

/// A result is read off both streams as one text, the second behind the first, all of it.
pub proof fn law_both_streams_are_one_text(
    r: ProverResult,
    stdout: Seq<char>,
    stderr: Seq<char>,
    mode: ProverMode,
)
    requires
        result_of(r, stdout, stderr, mode),
    ensures
        result_of(r, stdout + stderr, Seq::empty(), mode),
        result_of(r, Seq::empty(), stdout + stderr, mode),
        r.raw_output@ == stdout + stderr,
        r.termination == termination(stdout + stderr),
        r.status == transcript_status(stdout + stderr, mode),
        r.answers == transcript_answers(stdout + stderr, mode),
        node_views(r.proof_kif@) == transcript_graph(stdout + stderr),
        text_view(r.rejection) == rejection_report(stdout + stderr, mode),
{
    let t = stdout + stderr;
    assert(t + Seq::<char>::empty() =~= t);
    assert(Seq::<char>::empty() + t =~= t);
}

} // verus!
