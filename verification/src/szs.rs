//! A prover's transcript read as a document: status lines, and annotated
//! statements with where they come from.
use vstd::prelude::*;

use crate::formula::{
    fof_toks, fof_tree, fof_whole, formula_at, is_binary, is_mark, is_name, is_word, law_written_formulas_are_read_back,
    lemma_last_stands, lemma_parts_stand, mark_here, mark_tok, name_here, name_tok, no_more, read_formula, stands, word_here,
    Fof, FofName,
};
use crate::kif::{KifNode, KifTree};
use crate::scan::{end_of_line, is_white, lemma_line_end, line_end, occurs_at, same_text, stands_at, white};
use crate::text::{chars_of, text_between};
use crate::tokens::{lemma_up_to_stop, read_statement, tok_views, up_to_stop, Tok, TokKind, TokView};

verus! {

/// The role of a statement.
#[derive(Debug)]
pub enum Role {
    Axiom,
    Hypothesis,
    Definition,
    Lemma,
    Conjecture,
    NegatedConjecture,
    Plain,
    Type,
    Other(String),
}

/// The word for a role.
pub open spec fn role_text(role: Role) -> Seq<char> {
    match role {
        Role::Axiom => "axiom"@,
        Role::Hypothesis => "hypothesis"@,
        Role::Definition => "definition"@,
        Role::Lemma => "lemma"@,
        Role::Conjecture => "conjecture"@,
        Role::NegatedConjecture => "negated_conjecture"@,
        Role::Plain => "plain"@,
        Role::Type => "type"@,
        Role::Other(word) => word@,
    }
}

impl Role {
    /// The role that the word stands for.
    pub fn of_word(word: &str) -> (role: Role)
        ensures
            role_text(role) == word@,
            role is Other <==> word@ != "axiom"@ && word@ != "hypothesis"@ && word@ != "definition"@ && word@
                != "lemma"@ && word@ != "conjecture"@ && word@ != "negated_conjecture"@ && word@ != "plain"@ && word@
                != "type"@,
    {
        if same_text(word, "axiom") {
            Role::Axiom
        } else if same_text(word, "hypothesis") {
            Role::Hypothesis
        } else if same_text(word, "definition") {
            Role::Definition
        } else if same_text(word, "lemma") {
            Role::Lemma
        } else if same_text(word, "conjecture") {
            Role::Conjecture
        } else if same_text(word, "negated_conjecture") {
            Role::NegatedConjecture
        } else if same_text(word, "plain") {
            Role::Plain
        } else if same_text(word, "type") {
            Role::Type
        } else {
            Role::Other(word.to_owned())
        }
    }

    /// The word for the role.
    pub fn role_str(&self) -> (s: &str)
        ensures
            s@ == role_text(*self),
    {
        match self {
            Role::Axiom => "axiom",
            Role::Hypothesis => "hypothesis",
            Role::Definition => "definition",
            Role::Lemma => "lemma",
            Role::Conjecture => "conjecture",
            Role::NegatedConjecture => "negated_conjecture",
            Role::Plain => "plain",
            Role::Type => "type",
            Role::Other(word) => word.as_str(),
        }
    }
}

/// Where a statement comes from: a file and perhaps a name in it, an inference
/// with its rule and the names of its parents, or something else.
#[derive(Debug)]
pub enum Source {
    Input(Option<String>),
    Inference { rule: String, parents: Vec<String> },
    Other,
}

/// A source with its texts.
pub enum SourceView {
    Input(Option<Seq<char>>),
    Inference { rule: Seq<char>, parents: Seq<Seq<char>> },
    Other,
}

/// The characters of the texts.
pub open spec fn texts(ss: Seq<String>) -> Seq<Seq<char>> {
    Seq::new(ss.len(), |i: int| ss[i]@)
}

impl View for Source {
    type V = SourceView;

    open spec fn view(&self) -> SourceView {
        match self {
            Source::Input(None) => SourceView::Input(None),
            Source::Input(Some(n)) => SourceView::Input(Some(n@)),
            Source::Inference { rule, parents } => SourceView::Inference { rule: rule@, parents: texts(parents@) },
            Source::Other => SourceView::Other,
        }
    }
}

/// One item of a document: a status line, or a named statement.
#[derive(Debug)]
pub enum DocItem {
    Status(String),
    Stmt { name: String, role: Role, formula: KifNode, source: Source },
}

/// An item with its texts.
pub enum ItemView {
    Status(Seq<char>),
    Stmt { name: Seq<char>, role: Seq<char>, formula: KifTree, source: SourceView },
}

impl View for DocItem {
    type V = ItemView;

    open spec fn view(&self) -> ItemView {
        match self {
            DocItem::Status(w) => ItemView::Status(w@),
            DocItem::Stmt { name, role, formula, source } => ItemView::Stmt {
                name: name@,
                role: role_text(*role),
                formula: formula@,
                source: source@,
            },
        }
    }
}

/// The views of the items.
pub open spec fn item_views(items: Seq<DocItem>) -> Seq<ItemView> {
    Seq::new(items.len(), |i: int| items[i]@)
}

/// An opening bracket.
pub open spec fn opens(ts: Seq<TokView>, i: int) -> bool {
    mark_here(ts, i, "("@) || mark_here(ts, i, "["@)
}

/// A closing bracket.
pub open spec fn closes(ts: Seq<TokView>, i: int) -> bool {
    mark_here(ts, i, ")"@) || mark_here(ts, i, "]"@)
}

/// The names of a bracketed list from `i` on, after those in `acc`, and the
/// place after its closing bracket.  What stands within further brackets, and
/// what such brackets belong to, is no name.
pub open spec fn names_in(ts: Seq<TokView>, i: int, depth: nat, acc: Seq<Seq<char>>) -> Option<
    (Seq<Seq<char>>, int),
>
    decreases ts.len() - i,
{
    if i < 0 || i >= ts.len() {
        None
    } else if opens(ts, i) {
        names_in(ts, i + 1, depth + 1, acc)
    } else if closes(ts, i) {
        if depth == 0 {
            Some((acc, i + 1))
        } else {
            names_in(ts, i + 1, (depth - 1) as nat, acc)
        }
    } else if depth == 0 && name_here(ts, i) && !opens(ts, i + 1) {
        names_in(ts, i + 1, depth, acc.push(ts[i].text))
    } else {
        names_in(ts, i + 1, depth, acc)
    }
}

fn read_names(ts: &Vec<Tok>, from: usize) -> (r: Option<(Vec<String>, usize)>)
    ensures
        match (r, names_in(tok_views(ts@), from as int, 0, Seq::empty())) {
            (None, None) => true,
            (Some(a), Some(b)) => texts(a.0@) == b.0 && a.1 == b.1 && from < a.1 <= ts@.len(),
            _ => false,
        },
{
    let ghost vs = tok_views(ts@);
    let mut out: Vec<String> = Vec::new();
    let mut depth: usize = 0;
    let mut i: usize = from;
    assert(texts(out@) =~= Seq::empty());
    while i < ts.len()
        invariant
            from <= i,
            depth <= i - from,
            vs == tok_views(ts@),
            names_in(vs, from as int, 0, Seq::empty()) == names_in(vs, i as int, depth as nat, texts(out@)),
        decreases ts@.len() - i,
    {
        let opening: bool = is_mark(ts, i, "(") || is_mark(ts, i, "[");
        if opening {
            depth += 1;
        } else if is_mark(ts, i, ")") || is_mark(ts, i, "]") {
            if depth == 0 {
                return Some((out, i + 1));
            }
            depth -= 1;
        } else if depth == 0 && is_name(ts, i) && !(is_mark(ts, i + 1, "(") || is_mark(ts, i + 1, "[")) {
            let ghost before = out@;
            let name: String = ts[i].text.clone();
            out.push(name);
            assert(texts(out@) =~= texts(before).push(name@));
        }
        i += 1;
    }
    None
}

/// The source at `i`.
pub open spec fn source_at(ts: Seq<TokView>, i: int) -> SourceView {
    if word_here(ts, i, "file"@) && mark_here(ts, i + 1, "("@) && name_here(ts, i + 2) {
        if mark_here(ts, i + 3, ")"@) {
            SourceView::Input(None)
        } else if mark_here(ts, i + 3, ","@) && name_here(ts, i + 4) {
            SourceView::Input(Some(ts[i + 4].text))
        } else {
            SourceView::Other
        }
    } else if word_here(ts, i, "inference"@) && mark_here(ts, i + 1, "("@) && name_here(ts, i + 2) && mark_here(
        ts,
        i + 3,
        ","@,
    ) && mark_here(ts, i + 4, "["@) {
        match names_in(ts, i + 5, 0, Seq::empty()) {
            None => SourceView::Other,
            Some(a) => if mark_here(ts, a.1, ","@) && mark_here(ts, a.1 + 1, "["@) {
                match names_in(ts, a.1 + 2, 0, Seq::empty()) {
                    None => SourceView::Other,
                    Some(b) => SourceView::Inference { rule: ts[i + 2].text, parents: b.0 },
                }
            } else {
                SourceView::Other
            },
        }
    } else {
        SourceView::Other
    }
}

fn read_source(ts: &Vec<Tok>, i: usize) -> (r: Source)
    requires
        i <= ts@.len(),
    ensures
        r@ == source_at(tok_views(ts@), i as int),
{
    let total: usize = ts.len();
    assert(total == ts@.len());
    if is_word(ts, i, "file") && is_mark(ts, i + 1, "(") && is_name(ts, i + 2) {
        if is_mark(ts, i + 3, ")") {
            Source::Input(None)
        } else if is_mark(ts, i + 3, ",") && is_name(ts, i + 4) {
            Source::Input(Some(ts[i + 4].text.clone()))
        } else {
            Source::Other
        }
    } else if is_word(ts, i, "inference") && is_mark(ts, i + 1, "(") && is_name(ts, i + 2) && is_mark(
        ts,
        i + 3,
        ",",
    ) && is_mark(ts, i + 4, "[") {
        match read_names(ts, i + 5) {
            None => Source::Other,
            Some((_, j)) => {
                if is_mark(ts, j, ",") && is_mark(ts, j + 1, "[") {
                    match read_names(ts, j + 2) {
                        None => Source::Other,
                        Some((parents, _)) => Source::Inference { rule: ts[i + 2].text.clone(), parents },
                    }
                } else {
                    Source::Other
                }
            },
        }
    } else {
        Source::Other
    }
}

/// The statement that the tokens make: its language, name, role, formula and
/// perhaps a source, in brackets.
pub open spec fn stmt_of(ts: Seq<TokView>) -> Option<ItemView> {
    if !(word_here(ts, 0, "fof"@) || word_here(ts, 0, "cnf"@) || word_here(ts, 0, "tff"@)) || !mark_here(
        ts,
        1,
        "("@,
    ) || !name_here(ts, 2) || !mark_here(ts, 3, ","@) || !name_here(ts, 4) || !mark_here(ts, 5, ","@) || !mark_here(
        ts,
        ts.len() - 1,
        ")"@,
    ) {
        None
    } else {
        match formula_at(ts, 6) {
            None => None,
            Some(f) => {
                let stmt = |source: SourceView|
                    ItemView::Stmt { name: ts[2].text, role: ts[4].text, formula: f.0, source };
                if f.1 == ts.len() - 1 {
                    Some(stmt(SourceView::Other))
                } else if mark_here(ts, f.1, ","@) {
                    Some(stmt(source_at(ts, f.1 + 1)))
                } else {
                    None
                }
            },
        }
    }
}

/// Reads the statement that the tokens make.
pub fn read_stmt(ts: &Vec<Tok>) -> (r: Option<DocItem>)
    ensures
        match (r, stmt_of(tok_views(ts@))) {
            (None, None) => true,
            (Some(a), Some(b)) => a is Stmt && a@ == b,
            _ => false,
        },
{
    let ghost vs = tok_views(ts@);
    let n: usize = ts.len();
    if n == 0 {
        return None;
    }
    if !(is_word(ts, 0, "fof") || is_word(ts, 0, "cnf") || is_word(ts, 0, "tff")) || !is_mark(ts, 1, "(") || !is_name(
        ts,
        2,
    ) || !is_mark(ts, 3, ",") || !is_name(ts, 4) || !is_mark(ts, 5, ",") || !is_mark(ts, n - 1, ")") {
        return None;
    }
    match read_formula(ts, 6) {
        None => None,
        Some((formula, j)) => {
            let name: String = ts[2].text.clone();
            let role: Role = Role::of_word(ts[4].text.as_str());
            if j == n - 1 {
                Some(DocItem::Stmt { name, role, formula, source: Source::Other })
            } else if is_mark(ts, j, ",") {
                let source: Source = read_source(ts, j + 1);
                Some(DocItem::Stmt { name, role, formula, source })
            } else {
                None
            }
        },
    }
}

/// The first place from `i` on and before `to` where no white space stands.
pub open spec fn white_end(s: Seq<char>, i: int, to: int) -> int
    decreases to - i,
{
    if 0 <= i < to && i < s.len() && white(s[i]) {
        white_end(s, i + 1, to)
    } else {
        i
    }
}

/// The first place from `i` on and before `to` where white space stands.
pub open spec fn dark_end(s: Seq<char>, i: int, to: int) -> int
    decreases to - i,
{
    if 0 <= i < to && i < s.len() && !white(s[i]) {
        dark_end(s, i + 1, to)
    } else {
        i
    }
}

/// The status word of a comment that stands from `from` up to `to`.
pub open spec fn status_in(s: Seq<char>, from: int, to: int) -> Option<Seq<char>> {
    let a = white_end(s, from, to);
    if !occurs_at(s, "SZS status "@, a) {
        None
    } else {
        let b = white_end(s, a + "SZS status "@.len(), to);
        let c = dark_end(s, b, to);
        if b < c {
            Some(s.subrange(b, c))
        } else {
            None
        }
    }
}

fn skip_white(s: &Vec<char>, from: usize, to: usize) -> (r: usize)
    requires
        to <= s@.len(),
    ensures
        r == white_end(s@, from as int, to as int),
        from <= r,
        from <= to ==> r <= to,
{
    let mut i: usize = from;
    while i < to && is_white(s[i])
        invariant
            from <= i,
            from <= to ==> i <= to,
            to <= s@.len(),
            white_end(s@, from as int, to as int) == white_end(s@, i as int, to as int),
        decreases to - i,
    {
        i += 1;
    }
    i
}

fn skip_dark(s: &Vec<char>, from: usize, to: usize) -> (r: usize)
    requires
        to <= s@.len(),
    ensures
        r == dark_end(s@, from as int, to as int),
        from <= r,
        from <= to ==> r <= to,
{
    let mut i: usize = from;
    while i < to && !is_white(s[i])
        invariant
            from <= i,
            from <= to ==> i <= to,
            to <= s@.len(),
            dark_end(s@, from as int, to as int) == dark_end(s@, i as int, to as int),
        decreases to - i,
    {
        i += 1;
    }
    i
}

fn read_status(s: &Vec<char>, from: usize, to: usize) -> (r: Option<String>)
    requires
        to <= s@.len(),
    ensures
        match (r, status_in(s@, from as int, to as int)) {
            (None, None) => true,
            (Some(a), Some(b)) => a@ == b,
            _ => false,
        },
{
    let mark: Vec<char> = chars_of("SZS status ");
    let a: usize = skip_white(s, from, to);
    if !stands_at(s, &mark, a) {
        return None;
    }
    let total: usize = s.len();
    assert(a + mark@.len() <= total);
    let b: usize = skip_white(s, a + mark.len(), to);
    let c: usize = skip_dark(s, b, to);
    if b < c {
        assert(b <= to) by {
            if b > to {
                assert(dark_end(s@, b as int, to as int) == b);
            }
        }
        Some(text_between(s, b, c))
    } else {
        None
    }
}

/// A statement begins at `i`.
pub open spec fn stmt_starts(s: Seq<char>, i: int) -> bool {
    occurs_at(s, "fof("@, i) || occurs_at(s, "cnf("@, i) || occurs_at(s, "tff("@, i)
}

/// The items of the document from `i` on, after those in `acc`: comments that
/// give a status, and statements.  A statement that cannot be read is passed
/// over, and so is a line that is neither.
pub open spec fn items_from(s: Seq<char>, i: int, acc: Seq<ItemView>) -> Seq<ItemView>
    decreases s.len() + 1 - i,
{
    if i < 0 || i >= s.len() {
        acc
    } else {
        proof {
            lemma_line_end(s, i);
            lemma_up_to_stop(s, i, Seq::empty());
        }
        if s[i] == '%' {
            let more = match status_in(s, i + 1, line_end(s, i)) {
                Some(w) => acc.push(ItemView::Status(w)),
                None => acc,
            };
            items_from(s, line_end(s, i) + 1, more)
        } else if white(s[i]) {
            items_from(s, i + 1, acc)
        } else if stmt_starts(s, i) {
            match up_to_stop(s, i, Seq::empty()) {
                Some(r) => {
                    let more = match stmt_of(r.0) {
                        Some(item) => acc.push(item),
                        None => acc,
                    };
                    items_from(s, r.1, more)
                },
                None => items_from(s, line_end(s, i) + 1, acc),
            }
        } else {
            items_from(s, line_end(s, i) + 1, acc)
        }
    }
}

/// The document that a transcript is.
pub open spec fn document(s: Seq<char>) -> Seq<ItemView> {
    items_from(s, 0, Seq::empty())
}

proof fn lemma_item_push(items: Seq<DocItem>, item: DocItem)
    ensures
        item_views(items.push(item)) == item_views(items).push(item@),
{
    assert(item_views(items.push(item)) =~= item_views(items).push(item@));
}

/// Reads a transcript as a document.
pub fn parse_szs(s: &Vec<char>) -> (doc: Vec<DocItem>)
    ensures
        item_views(doc@) == document(s@),
{
    let fof: Vec<char> = chars_of("fof(");
    let cnf: Vec<char> = chars_of("cnf(");
    let tff: Vec<char> = chars_of("tff(");
    let mut doc: Vec<DocItem> = Vec::new();
    let mut i: usize = 0;
    assert(item_views(doc@) =~= Seq::empty());
    while i < s.len()
        invariant
            fof@ == "fof("@,
            cnf@ == "cnf("@,
            tff@ == "tff("@,
            items_from(s@, i as int, item_views(doc@)) == document(s@),
        decreases s@.len() - i,
    {
        let end: usize = end_of_line(s, i);
        let next_line: usize = if end < s.len() {
            end + 1
        } else {
            end
        };
        let ghost so_far = item_views(doc@);
        assert(forall|acc: Seq<ItemView>|
            end == s@.len() ==> #[trigger] items_from(s@, end + 1, acc) == items_from(s@, end as int, acc));
        if s[i] == '%' {
            if let Some(word) = read_status(s, i + 1, end) {
                let item: DocItem = DocItem::Status(word);
                proof {
                    lemma_item_push(doc@, item);
                }
                doc.push(item);
            }
            assert(items_from(s@, i as int, so_far) == items_from(s@, end + 1, item_views(doc@)));
            i = next_line;
        } else if is_white(s[i]) {
            assert(items_from(s@, i as int, so_far) == items_from(s@, i + 1, so_far));
            i += 1;
        } else if stands_at(s, &fof, i) || stands_at(s, &cnf, i) || stands_at(s, &tff, i) {
            match read_statement(s, i) {
                Some((ts, j)) => {
                    if let Some(item) = read_stmt(&ts) {
                        proof {
                            lemma_item_push(doc@, item);
                        }
                        doc.push(item);
                    }
                    assert(items_from(s@, i as int, so_far) == items_from(s@, j as int, item_views(doc@)));
                    i = j;
                },
                None => {
                    assert(items_from(s@, i as int, so_far) == items_from(s@, end + 1, so_far));
                    i = next_line;
                },
            }
        } else {
            assert(items_from(s@, i as int, so_far) == items_from(s@, end + 1, so_far));
            i = next_line;
        }
    }
    doc
}

// ---------------------------------------------------------------------------
// What is written is read back
// ---------------------------------------------------------------------------

/// Where a statement says that it comes from.
pub enum FofSource {
    Unsaid,
    File(FofName, Option<FofName>),
    Inference { rule: FofName, info: Seq<FofName>, parents: Seq<FofName> },
}

/// The token of a plain word.
pub open spec fn word_tok(text: Seq<char>) -> TokView {
    TokView { kind: TokKind::Word, text }
}

/// The tokens of the names from the given one on, commas between them, with the
/// closing bracket.
pub open spec fn list_toks(ns: Seq<FofName>, k: nat) -> Seq<TokView>
    decreases ns.len() - k,
{
    if k >= ns.len() {
        seq![mark_tok("]"@)]
    } else if k + 1 == ns.len() {
        seq![name_tok(ns[k as int])] + list_toks(ns, k + 1)
    } else {
        seq![name_tok(ns[k as int]), mark_tok(","@)] + list_toks(ns, k + 1)
    }
}

/// The tokens of a source, with the comma before it.
pub open spec fn source_toks(src: FofSource) -> Seq<TokView> {
    match src {
        FofSource::Unsaid => Seq::empty(),
        FofSource::File(path, None) => seq![
            mark_tok(","@),
            word_tok("file"@),
            mark_tok("("@),
            name_tok(path),
            mark_tok(")"@),
        ],
        FofSource::File(path, Some(name)) => seq![
            mark_tok(","@),
            word_tok("file"@),
            mark_tok("("@),
            name_tok(path),
            mark_tok(","@),
            name_tok(name),
            mark_tok(")"@),
        ],
        FofSource::Inference { rule, info, parents } => seq![
            mark_tok(","@),
            word_tok("inference"@),
            mark_tok("("@),
            name_tok(rule),
            mark_tok(","@),
            mark_tok("["@),
        ] + list_toks(info, 0) + seq![mark_tok(","@), mark_tok("["@)] + list_toks(parents, 0).push(mark_tok(")"@)),
    }
}

/// What a source says.
pub open spec fn source_means(src: FofSource) -> SourceView {
    match src {
        FofSource::Unsaid => SourceView::Other,
        FofSource::File(_, None) => SourceView::Input(None),
        FofSource::File(_, Some(name)) => SourceView::Input(Some(name.text)),
        FofSource::Inference { rule, info, parents } => SourceView::Inference {
            rule: rule.text,
            parents: Seq::new(parents.len(), |i: int| parents[i].text),
        },
    }
}

/// The tokens of a statement up to its stop.
pub open spec fn stmt_toks(lang: Seq<char>, name: FofName, role: FofName, f: Fof, src: FofSource) -> Seq<TokView> {
    seq![
        word_tok(lang),
        mark_tok("("@),
        name_tok(name),
        mark_tok(","@),
        name_tok(role),
        mark_tok(","@),
    ] + fof_toks(f) + source_toks(src) + seq![mark_tok(")"@)]
}

proof fn lemma_doc_marks()
    ensures
        ","@ != "("@ && ","@ != ")"@ && ","@ != "["@ && ","@ != "]"@ && "["@ != "]"@ && "["@ != ")"@ && "("@ != ")"@,
        "]"@ != "("@ && "]"@ != "["@ && ")"@ != "="@ && ")"@ != "!="@ && ","@ != "="@ && ","@ != "!="@,
        ","@ != "&"@ && ","@ != "|"@ && ")"@ != "&"@ && ")"@ != "|"@,
        !is_binary(","@) && !is_binary(")"@),
        "file"@ != "inference"@,
{
    reveal_strlit(",");
    reveal_strlit("(");
    reveal_strlit(")");
    reveal_strlit("[");
    reveal_strlit("]");
    reveal_strlit("=");
    reveal_strlit("!=");
    reveal_strlit("&");
    reveal_strlit("|");
    reveal_strlit("=>");
    reveal_strlit("<=");
    reveal_strlit("<=>");
    reveal_strlit("<~>");
    reveal_strlit("~|");
    reveal_strlit("~&");
    reveal_strlit("file");
    reveal_strlit("inference");
    assert(","@[0] == ',' && "("@[0] == '(' && ")"@[0] == ')' && "["@[0] == '[' && "]"@[0] == ']' && "="@[0] == '=');
    assert("&"@[0] == '&' && "|"@[0] == '|' && "!="@.len() == 2 && ","@.len() == 1 && ")"@.len() == 1);
    assert("=>"@.len() == 2 && "<="@.len() == 2 && "<=>"@.len() == 3 && "<~>"@.len() == 3 && "~|"@.len() == 2);
    assert("~&"@.len() == 2 && "file"@.len() == 4 && "inference"@.len() == 9);
}

proof fn lemma_names_read(ts: Seq<TokView>, i: int, ns: Seq<FofName>, k: nat)
    requires
        k <= ns.len(),
        stands(ts, i, list_toks(ns, k)),
    ensures
        names_in(ts, i, 0, Seq::new(k, |m: int| ns[m].text)) == Some(
            (Seq::new(ns.len(), |m: int| ns[m].text), i + list_toks(ns, k).len()),
        ),
    decreases ns.len() - k,
{
    lemma_doc_marks();
    let w = list_toks(ns, k);
    assert(ts[i + 0] == w[0]);
    let acc = Seq::new(k, |m: int| ns[m].text);
    if k < ns.len() {
        assert(acc.push(ns[k as int].text) =~= Seq::new(k + 1, |m: int| ns[m].text));
        if k + 1 == ns.len() {
            lemma_parts_stand(ts, i, seq![name_tok(ns[k as int])], list_toks(ns, k + 1));
            assert(ts[i + 1 + 0] == list_toks(ns, k + 1)[0]);
            lemma_names_read(ts, i + 1, ns, k + 1);
        } else {
            lemma_parts_stand(ts, i, seq![name_tok(ns[k as int]), mark_tok(","@)], list_toks(ns, k + 1));
            assert(ts[i + 1] == w[1]);
            lemma_names_read(ts, i + 2, ns, k + 1);
            assert(names_in(ts, i + 1, 0, Seq::new(k + 1, |m: int| ns[m].text)) == names_in(
                ts,
                i + 2,
                0,
                Seq::new(k + 1, |m: int| ns[m].text),
            ));
        }
    } else {
        assert(acc =~= Seq::new(ns.len(), |m: int| ns[m].text));
    }
}

proof fn lemma_source_read(ts: Seq<TokView>, i: int, src: FofSource)
    requires
        stands(ts, i, source_toks(src)),
        !(src is Unsaid),
    ensures
        mark_here(ts, i, ","@),
        source_at(ts, i + 1) == source_means(src),
{
    lemma_doc_marks();
    let w = source_toks(src);
    assert(ts[i + 0] == w[0]);
    assert(ts[i + 1] == w[1]);
    assert(ts[i + 2] == w[2]);
    assert(ts[i + 3] == w[3]);
    assert(ts[i + 4] == w[4]);
    match src {
        FofSource::Unsaid => {},
        FofSource::File(_, None) => {},
        FofSource::File(_, Some(_)) => {
            assert(ts[i + 5] == w[5]);
        },
        FofSource::Inference { rule, info, parents } => {
            assert(ts[i + 5] == w[5]);
            let head = seq![
                mark_tok(","@),
                word_tok("inference"@),
                mark_tok("("@),
                name_tok(rule),
                mark_tok(","@),
                mark_tok("["@),
            ];
            let mid = seq![mark_tok(","@), mark_tok("["@)];
            let last = list_toks(parents, 0).push(mark_tok(")"@));
            lemma_parts_stand(ts, i, head + list_toks(info, 0) + mid, last);
            lemma_parts_stand(ts, i, head + list_toks(info, 0), mid);
            lemma_parts_stand(ts, i, head, list_toks(info, 0));
            let a = i + 6 + list_toks(info, 0).len();
            assert(ts[a + 0] == mid[0]);
            assert(ts[a + 1] == mid[1]);
            lemma_last_stands(ts, a + 2, list_toks(parents, 0), mark_tok(")"@));
            lemma_names_read(ts, i + 6, info, 0);
            lemma_names_read(ts, a + 2, parents, 0);
            assert(Seq::new(0, |m: int| info[m].text) =~= Seq::empty());
            assert(Seq::new(0, |m: int| parents[m].text) =~= Seq::empty());
        },
    }
}

/// A statement is read as it is written: its name, its role, its formula, and where it
/// comes from, an inference with its rule and all its parents in their order.
pub proof fn law_written_statements_are_read_back(lang: Seq<char>, name: FofName, role: FofName, f: Fof, src: FofSource)
    requires
        lang == "fof"@ || lang == "cnf"@ || lang == "tff"@,
        fof_whole(f),
    ensures
        stmt_of(stmt_toks(lang, name, role, f, src)) == Some(
            ItemView::Stmt { name: name.text, role: role.text, formula: fof_tree(f), source: source_means(src) },
        ),
{
    lemma_doc_marks();
    let ts = stmt_toks(lang, name, role, f, src);
    let head = seq![
        word_tok(lang),
        mark_tok("("@),
        name_tok(name),
        mark_tok(","@),
        name_tok(role),
        mark_tok(","@),
    ];
    let end = seq![mark_tok(")"@)];
    assert(stands(ts, 0, ts));
    lemma_parts_stand(ts, 0, head + fof_toks(f) + source_toks(src), end);
    lemma_parts_stand(ts, 0, head + fof_toks(f), source_toks(src));
    lemma_parts_stand(ts, 0, head, fof_toks(f));
    assert(ts[0] == head[0]);
    assert(ts[1] == head[1]);
    assert(ts[2] == head[2]);
    assert(ts[3] == head[3]);
    assert(ts[4] == head[4]);
    assert(ts[5] == head[5]);
    let at: int = 6 + fof_toks(f).len() as int;
    assert(ts[at + source_toks(src).len()] == end[0]);
    assert(ts.len() == at + source_toks(src).len() + 1);
    if src is Unsaid {
        assert(no_more(ts, at as int));
    } else {
        lemma_source_read(ts, at as int, src);
        assert(no_more(ts, at as int));
        assert(source_toks(src).len() > 0);
    }
    law_written_formulas_are_read_back(ts, 6, f);
}

/// What was found before stays in front.
pub proof fn law_items_come_in_order(s: Seq<char>, i: int, acc: Seq<ItemView>)
    ensures
        items_from(s, i, acc) == acc + items_from(s, i, Seq::empty()),
    decreases s.len() + 1 - i,
{
    let none = Seq::<ItemView>::empty();
    if i < 0 || i >= s.len() {
        assert(acc + none =~= acc);
    } else {
        lemma_line_end(s, i);
        lemma_up_to_stop(s, i, Seq::empty());
        let next = line_end(s, i) + 1;
        if s[i] == '%' {
            match status_in(s, i + 1, line_end(s, i)) {
                Some(w) => {
                    let it = ItemView::Status(w);
                    law_items_come_in_order(s, next, acc.push(it));
                    law_items_come_in_order(s, next, none.push(it));
                    assert(acc.push(it) + items_from(s, next, none) =~= acc + (none.push(it) + items_from(s, next, none)));
                },
                None => {
                    law_items_come_in_order(s, next, acc);
                },
            }
        } else if white(s[i]) {
            law_items_come_in_order(s, i + 1, acc);
        } else if stmt_starts(s, i) {
            match up_to_stop(s, i, Seq::empty()) {
                Some(r) => match stmt_of(r.0) {
                    Some(it) => {
                        law_items_come_in_order(s, r.1, acc.push(it));
                        law_items_come_in_order(s, r.1, none.push(it));
                        assert(acc.push(it) + items_from(s, r.1, none) =~= acc + (none.push(it) + items_from(s, r.1, none)));
                    },
                    None => {
                        law_items_come_in_order(s, r.1, acc);
                    },
                },
                None => {
                    law_items_come_in_order(s, next, acc);
                },
            }
        } else {
            law_items_come_in_order(s, next, acc);
        }
    }
}

proof fn lemma_starts(s: Seq<char>, i: int)
    requires
        occurs_at(s, "fof("@, i) || occurs_at(s, "cnf("@, i) || occurs_at(s, "tff("@, i),
    ensures
        s[i] != '%',
        !white(s[i]),
        i < s.len(),
{
    reveal_strlit("fof(");
    reveal_strlit("cnf(");
    reveal_strlit("tff(");
    let p = if occurs_at(s, "fof("@, i) {
        "fof("@
    } else if occurs_at(s, "cnf("@, i) {
        "cnf("@
    } else {
        "tff("@
    };
    assert(s.subrange(i, i + p.len())[0] == p[0]);
    assert("fof("@[0] == 'f' && "cnf("@[0] == 'c' && "tff("@[0] == 't');
}

/// A statement that can be read is an item of the document, in its place: the items
/// from where it begins are the statement and the items from behind its stop.
pub proof fn law_statements_are_items(s: Seq<char>, i: int, ts: Seq<TokView>, end: int, item: ItemView)
    requires
        occurs_at(s, "fof("@, i) || occurs_at(s, "cnf("@, i) || occurs_at(s, "tff("@, i),
        up_to_stop(s, i, Seq::empty()) == Some((ts, end)),
        stmt_of(ts) == Some(item),
    ensures
        items_from(s, i, Seq::empty()) == seq![item] + items_from(s, end, Seq::empty()),
{
    lemma_starts(s, i);
    law_items_come_in_order(s, end, Seq::<ItemView>::empty().push(item));
    assert(Seq::<ItemView>::empty().push(item) =~= seq![item]);
}

/// White space between the items says nothing, nor does a line that begins neither a
/// comment nor a statement.
pub proof fn law_other_text_is_passed_over(s: Seq<char>, i: int)
    requires
        0 <= i < s.len(),
        s[i] != '%',
    ensures
        white(s[i]) ==> items_from(s, i, Seq::empty()) == items_from(s, i + 1, Seq::empty()),
        !white(s[i]) && !occurs_at(s, "fof("@, i) && !occurs_at(s, "cnf("@, i) && !occurs_at(s, "tff("@, i) ==> items_from(
            s,
            i,
            Seq::empty(),
        ) == items_from(s, line_end(s, i) + 1, Seq::empty()),
{
}

proof fn lemma_white_end_at(s: Seq<char>, i: int, a: int, to: int)
    requires
        0 <= i <= a <= to <= s.len(),
        forall|k: int| i <= k < a ==> white(#[trigger] s[k]),
        a < to ==> !white(s[a]),
    ensures
        white_end(s, i, to) == a,
    decreases a - i,
{
    if i < a {
        lemma_white_end_at(s, i + 1, a, to);
    }
}

proof fn lemma_dark_end_at(s: Seq<char>, i: int, c: int, to: int)
    requires
        0 <= i <= c <= to <= s.len(),
        forall|k: int| i <= k < c ==> !white(#[trigger] s[k]),
        c < to ==> white(s[c]),
    ensures
        dark_end(s, i, to) == c,
    decreases c - i,
{
    if i < c {
        lemma_dark_end_at(s, i + 1, c, to);
    }
}

/// A comment that gives a status is an item with the status word: the word between
/// `SZS status` and the next white space, or the end of the line.
pub proof fn law_status_lines_are_items(s: Seq<char>, i: int, a: int, b: int, c: int)
    requires
        0 <= i < a,
        s[i] == '%',
        forall|k: int| i < k < a ==> white(#[trigger] s[k]),
        occurs_at(s, "SZS status "@, a),
        a + 11 <= b < c <= line_end(s, i),
        forall|k: int| a + 11 <= k < b ==> white(#[trigger] s[k]),
        forall|k: int| b <= k < c ==> !white(#[trigger] s[k]),
        c < line_end(s, i) ==> white(s[c]),
    ensures
        items_from(s, i, Seq::empty()) == seq![ItemView::Status(s.subrange(b, c))] + items_from(
            s,
            line_end(s, i) + 1,
            Seq::empty(),
        ),
{
    reveal_strlit("SZS status ");
    assert("SZS status "@.len() == 11 && "SZS status "@[0] == 'S');
    assert(s.subrange(a, a + 11)[0] == 'S');
    let to = line_end(s, i);
    lemma_line_end(s, i);
    lemma_white_end_at(s, i + 1, a, to);
    lemma_white_end_at(s, a + 11, b, to);
    lemma_dark_end_at(s, b, c, to);
    let it = ItemView::Status(s.subrange(b, c));
    law_items_come_in_order(s, to + 1, Seq::<ItemView>::empty().push(it));
    assert(Seq::<ItemView>::empty().push(it) =~= seq![it]);
}

} // verus!
