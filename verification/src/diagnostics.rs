//! Syntax error diagnostics, read off the `ERROR` nodes of a parse tree.
//!
//! The tree walk stops at the first `ERROR` node on each path, so an error
//! inside an already broken region is reported once. Lines that the grammar
//! has no rules for (`#define` directives, `let` bindings) are not reported.
use vstd::prelude::*;
use vstd::string::{StrSliceExecFns, StringSliceAdditionalSpecFns};
use vstd::utf8::encode_utf8;

use crate::parser::folding::{lines_view, source_lines};
use crate::position::{Position, Range};
use crate::syntax::{kind_is, node_range, node_to_range, SyntaxNode};
use crate::text::{
    append_chars, append_str, decimal_nat, find_chars, find_seq,
    lemma_encode_concat, lemma_encode_subrange, lemma_lines_encode_bound, lines_of, occurs_at,
    slice_chars, starts_with, starts_with_str, str_eq, string_of, trim, trim_bounds,
    trim_start, trim_start_chars, usize_decimal, utf8_len,
};

verus! {

/// How serious a diagnostic is.
#[derive(Debug, Clone, Copy, PartialEq, Eq, Structural)]
pub enum DiagnosticSeverity {
    Error,
    Warning,
    Information,
    Hint,
}

/// A message about a range of a document.
#[derive(Debug)]
pub struct Diagnostic {
    pub range: Range,
    pub severity: Option<DiagnosticSeverity>,
    pub source: Option<String>,
    pub message: String,
}

/// A diagnostic as plain values.
pub ghost struct SpecDiagnostic {
    pub range: Range,
    pub severity: Option<DiagnosticSeverity>,
    pub source: Option<Seq<char>>,
    pub message: Seq<char>,
}

impl Diagnostic {
    pub open spec fn view(&self) -> SpecDiagnostic {
        SpecDiagnostic {
            range: self.range,
            severity: self.severity,
            source: match self.source {
                Some(s) => Some(s@),
                None => None,
            },
            message: self.message@,
        }
    }
}

pub open spec fn diagnostics_view(v: Seq<Diagnostic>) -> Seq<SpecDiagnostic> {
    Seq::new(v.len(), |i: int| v[i].view())
}

/// The `ERROR` nodes of the tree `n`, in pre-order, without descending into
/// an `ERROR` node.
pub open spec fn error_nodes(n: SyntaxNode) -> Seq<SyntaxNode>
    decreases n,
{
    if n.kind@ == "ERROR"@ {
        seq![n]
    } else {
        error_nodes_in(n.children@)
    }
}

/// The `ERROR` nodes of the trees `s`, in order.
pub open spec fn error_nodes_in(s: Seq<SyntaxNode>) -> Seq<SyntaxNode>
    decreases s,
{
    if s.len() == 0 {
        seq![]
    } else {
        error_nodes(s[0]) + error_nodes_in(s.drop_first())
    }
}

/// An `ERROR` node on a line that is valid BSV the grammar cannot read: a
/// `#define` directive or a `let` binding.
pub open spec fn is_false_positive(n: SyntaxNode, source: Seq<char>) -> bool {
    false_positive_in(n, lines_of(source))
}

/// The false positive test over the document's lines.
pub open spec fn false_positive_in(n: SyntaxNode, ls: Seq<Seq<char>>) -> bool {
    match nth_line_of(ls, n.start_row as int) {
        Some(l) => {
            let t = trim_start(l);
            starts_with(t, "#define"@) || starts_with(t, "let "@) || starts_with(t, "let{"@)
        },
        None => false,
    }
}

pub open spec fn nth_line_of(ls: Seq<Seq<char>>, k: int) -> Option<Seq<char>> {
    if 0 <= k < ls.len() {
        Some(ls[k])
    } else {
        None
    }
}

/// A character of a word: an ASCII letter or digit, or `_`.
pub open spec fn is_word_char(c: char) -> bool {
    ('a' <= c <= 'z') || ('A' <= c <= 'Z') || ('0' <= c <= '9') || c == '_'
}

/// Where the run of word characters of `t` that goes on at `i` ends.
pub open spec fn word_end_from(t: Seq<char>, i: int) -> int
    decreases t.len() - i,
{
    if 0 <= i < t.len() && is_word_char(t[i]) {
        word_end_from(t, i + 1)
    } else {
        i
    }
}

/// The word that `t` starts with (empty when `t` starts with something else).
pub open spec fn leading_word(t: Seq<char>) -> Seq<char> {
    t.take(word_end_from(t, 0))
}

/// The misspelled closing keyword that is the whole first word of the
/// trimmed line `t`.
pub open spec fn misspelled_token(t: Seq<char>) -> Option<Seq<char>> {
    if is_misspelled_keyword(leading_word(t)) {
        Some(leading_word(t))
    } else {
        None
    }
}

/// The range of the keyword `kw` on line `k` with text `l`: from the byte
/// column of its first occurrence, as long as its UTF-8 encoding.
pub open spec fn keyword_range(l: Seq<char>, k: int, kw: Seq<char>) -> Range {
    let col = match find_seq(l, kw) {
        Some(i) => encode_utf8(l.take(i)).len() as int,
        None => 0,
    };
    Range {
        start: Position { line: k as u32, character: col as u32 },
        end: Position { line: k as u32, character: (col + encode_utf8(kw).len()) as u32 },
    }
}

/// The range of the first misspelled closing keyword on the lines `k`
/// through `end`.
pub open spec fn narrowed_from(ls: Seq<Seq<char>>, k: int, end: int) -> Option<Range>
    decreases ls.len() - k,
{
    if k < 0 || k > end || k >= ls.len() {
        None
    } else {
        match misspelled_token(trim(ls[k])) {
            Some(kw) => Some(keyword_range(ls[k], k, kw)),
            None => narrowed_from(ls, k + 1, end),
        }
    }
}

/// A misspelling of `endmodule`.
pub open spec fn is_misspelled_keyword(t: Seq<char>) -> bool {
    ||| t == "endm"@
    ||| t == "endmod"@
    ||| t == "endmodul"@
    ||| t == "endmodue"@
    ||| t == "endmodu"@
    ||| t == "endmodle"@
}

/// A closing keyword of BSV (or of the SystemVerilog it borrows from).
pub open spec fn is_closing_keyword(t: Seq<char>) -> bool {
    ||| t == "endmodule"@
    ||| t == "endpackage"@
    ||| t == "endinterface"@
    ||| t == "endfunction"@
    ||| t == "endmethod"@
    ||| t == "endrule"@
    ||| t == "endcase"@
    ||| t == "endclass"@
    ||| t == "endtypeclass"@
    ||| t == "endinstance"@
    ||| t == "endgenerate"@
    ||| t == "endclocking"@
    ||| t == "endproperty"@
    ||| t == "endspecify"@
    ||| t == "endconfig"@
    ||| t == "endtask"@
}

/// The first child's trimmed text, when it is a closing keyword or a
/// misspelling of one.
pub open spec fn unexpected_token(n: SyntaxNode) -> Option<Seq<char>> {
    if n.children@.len() > 0 {
        let t = trim(n.children@[0].text@);
        if is_misspelled_keyword(t) || is_closing_keyword(t) {
            Some(t)
        } else {
            None
        }
    } else {
        None
    }
}

/// Text shown in a message: when it is longer than 60 characters, its first
/// 57 characters and `...`.
pub open spec fn shown_text(t: Seq<char>) -> Seq<char> {
    if t.len() > 60 {
        t.take(57) + "..."@
    } else {
        t
    }
}

/// The message for an `ERROR` node.
pub open spec fn message_of(n: SyntaxNode) -> Seq<char> {
    let t = trim(n.text@);
    match unexpected_token(n) {
        Some(k) => "Unexpected token: '"@ + k + "'"@,
        None => if t.len() > 0 {
            "Syntax error near: '"@ + shown_text(t) + "'"@
        } else {
            "Syntax error at line "@ + decimal_nat((n.start_row + 1) as nat)
        },
    }
}

/// The message can be built: a line number that it shows does not
/// overflow.
pub open spec fn message_defined(n: SyntaxNode) -> bool {
    unexpected_token(n) is None && trim(n.text@).len() == 0 ==> n.start_row < usize::MAX
}

/// The diagnostic for an `ERROR` node.
pub open spec fn diagnostic_of(n: SyntaxNode, source: Seq<char>) -> SpecDiagnostic {
    diagnostic_in(n, lines_of(source))
}

/// The diagnostic for an `ERROR` node, over the document's lines.
pub open spec fn diagnostic_in(n: SyntaxNode, ls: Seq<Seq<char>>) -> SpecDiagnostic {
    SpecDiagnostic {
        range: match narrowed_from(ls, n.start_row as int, n.end_row as int) {
            Some(r) => r,
            None => node_range(n),
        },
        severity: Some(DiagnosticSeverity::Error),
        source: Some("bsv"@),
        message: message_of(n),
    }
}

/// The diagnostics for the nodes `s` that are not false positives, in order.
pub open spec fn reported(s: Seq<SyntaxNode>, source: Seq<char>) -> Seq<SpecDiagnostic>
    decreases s.len(),
{
    if s.len() == 0 {
        seq![]
    } else {
        let rest = reported(s.drop_last(), source);
        if is_false_positive(s.last(), source) {
            rest
        } else {
            rest.push(diagnostic_of(s.last(), source))
        }
    }
}

/// The diagnostics of a document.
pub open spec fn diagnostics_of(tree: SyntaxNode, source: Seq<char>) -> Seq<SpecDiagnostic> {
    reported(error_nodes(tree), source)
}

/// Every reported node's message can be built.
pub open spec fn collectable(tree: SyntaxNode, source: Seq<char>) -> bool {
    forall|i: int|
        0 <= i < error_nodes(tree).len() && !is_false_positive(error_nodes(tree)[i], source)
            ==> message_defined(#[trigger] error_nodes(tree)[i])
}

pub open spec fn deref_all(v: Seq<&SyntaxNode>) -> Seq<SyntaxNode> {
    Seq::new(v.len(), |i: int| *v[i])
}

/// Collects syntax error diagnostics from a parse tree.
pub struct DiagnosticCollector;

impl DiagnosticCollector {
    /// The syntax error diagnostics of a document, one per `ERROR` node that
    /// is not a known false positive, in document order.
    pub fn collect(tree: &SyntaxNode, source: &str) -> (r: Vec<Diagnostic>)
        requires
            collectable(*tree, source@),
        ensures
            diagnostics_view(r@) == diagnostics_of(*tree, source@),
    {
        let mut nodes: Vec<&SyntaxNode> = Vec::new();
        collect_error_nodes(tree, &mut nodes);
        assert(deref_all(nodes@) =~= error_nodes(*tree));
        let mut out: Vec<Diagnostic> = Vec::new();
        if nodes.len() == 0 {
            assert(error_nodes(*tree).len() == 0);
            return out;
        }
        let cs = crate::text::chars_of(source);
        let ls = source_lines(&cs);
        let byte_len = source.as_bytes().len();
        assert(byte_len == encode_utf8(source@).len());
        proof {
            lemma_lines_encode_bound(source@);
        }
        let ghost es = error_nodes(*tree);
        let mut i: usize = 0;
        while i < nodes.len()
            invariant
                i <= nodes@.len(),
                es == deref_all(nodes@),
                lines_view(ls@) == lines_of(source@),
                lines_fit(lines_view(ls@)),
                collectable(*tree, source@),
                es == error_nodes(*tree),
                diagnostics_view(out@) == reported(es.take(i as int), source@),
            decreases nodes@.len() - i,
        {
            let n = nodes[i];
            proof {
                assert(es.take(i + 1).drop_last() =~= es.take(i as int));
                assert(es.take(i + 1).last() == es[i as int]);
                assert(*n == es[i as int]);
            }
            if !false_positive(n, &ls) {
                assert(message_defined(es[i as int]));
                let d = error_node_to_diagnostic(n, &ls);
                let ghost before = out@;
                out.push(d);
                assert(diagnostics_view(out@) =~= diagnostics_view(before).push(d.view()));
            }
            i = i + 1;
        }
        assert(es.take(nodes@.len() as int) =~= es);
        out
    }
}

/// Whether `collect` can build a message for every reported node.
pub fn can_collect(tree: &SyntaxNode, source: &str) -> (r: bool)
    ensures
        r == collectable(*tree, source@),
{
    let mut nodes: Vec<&SyntaxNode> = Vec::new();
    collect_error_nodes(tree, &mut nodes);
    let ghost es = error_nodes(*tree);
    assert(deref_all(nodes@) =~= es);
    let cs = crate::text::chars_of(source);
    let ls = source_lines(&cs);
    let mut i: usize = 0;
    while i < nodes.len()
        invariant
            i <= nodes@.len(),
            es == deref_all(nodes@),
            es == error_nodes(*tree),
            lines_view(ls@) == lines_of(source@),
            forall|j: int|
                0 <= j < i && !is_false_positive(es[j], source@) ==> message_defined(
                    #[trigger] es[j],
                ),
        decreases nodes@.len() - i,
    {
        let n = nodes[i];
        assert(*n == es[i as int]);
        if !false_positive(n, &ls) && !message_can_be_built(n) {
            return false;
        }
        i = i + 1;
    }
    true
}

/// Adds the `ERROR` nodes of the tree `n` to `errors`, without descending
/// into an `ERROR` node.
fn collect_error_nodes<'a>(n: &'a SyntaxNode, errors: &mut Vec<&'a SyntaxNode>)
    ensures
        deref_all(final(errors)@) == deref_all(old(errors)@) + error_nodes(*n),
    decreases n,
{
    let ghost start = deref_all(errors@);
    if kind_is(n, "ERROR") {
        errors.push(n);
        assert(deref_all(errors@) =~= start + seq![*n]);
        return;
    }
    let mut i: usize = 0;
    assert(n.children@.skip(0) =~= n.children@);
    assert(start + error_nodes(*n) == start + error_nodes_in(n.children@));
    while i < n.children.len()
        invariant
            i <= n.children@.len(),
            deref_all(errors@) + error_nodes_in(n.children@.skip(i as int)) == start + error_nodes(
                *n,
            ),
        decreases n.children@.len() - i,
    {
        let ghost before = deref_all(errors@);
        proof {
            assert(n.children@.skip(i as int)[0] == n.children@[i as int]);
            assert(n.children@.skip(i as int).drop_first() =~= n.children@.skip(i + 1));
        }
        collect_error_nodes(&n.children[i], errors);
        proof {
            let a = error_nodes(n.children@[i as int]);
            let b = error_nodes_in(n.children@.skip(i + 1));
            assert(error_nodes_in(n.children@.skip(i as int)) == a + b);
            assert(before + (a + b) =~= (before + a) + b);
        }
        i = i + 1;
    }
    assert(n.children@.skip(i as int) =~= Seq::<SyntaxNode>::empty());
    assert(deref_all(errors@) + Seq::<SyntaxNode>::empty() =~= deref_all(errors@));
}

/// Whether the node is a known false positive.
fn false_positive(n: &SyntaxNode, ls: &Vec<Vec<char>>) -> (r: bool)
    ensures
        r == false_positive_in(*n, lines_view(ls@)),
{
    if n.start_row < ls.len() {
        let t = trim_start_chars(&ls[n.start_row]);
        starts_with_str(&t, "#define") || starts_with_str(&t, "let ") || starts_with_str(&t, "let{")
    } else {
        false
    }
}

/// The diagnostic for an `ERROR` node.
fn error_node_to_diagnostic(n: &SyntaxNode, ls: &Vec<Vec<char>>) -> (d: Diagnostic)
    requires
        message_defined(*n),
        lines_fit(lines_view(ls@)),
    ensures
        d.view() == diagnostic_in(*n, lines_view(ls@)),
{
    let range = match find_narrowed_range(n, ls) {
        Some(r) => r,
        None => node_to_range(n),
    };
    Diagnostic {
        range,
        severity: Some(DiagnosticSeverity::Error),
        source: Some(String::from_str("bsv")),
        message: build_message(n),
    }
}

fn is_word_char_exec(c: char) -> (r: bool)
    ensures
        r == is_word_char(c),
{
    ('a' <= c && c <= 'z') || ('A' <= c && c <= 'Z') || ('0' <= c && c <= '9') || c == '_'
}

/// The misspelled closing keyword that is the first word of the trimmed line.
fn misspelled_token_of(t: &[char]) -> (r: Option<String>)
    ensures
        r matches Some(k) ==> misspelled_token(t@) == Some(k@) && k@.len() <= t@.len() && k@
            == t@.take(k@.len() as int),
        r is None ==> misspelled_token(t@) is None,
{
    let mut i: usize = 0;
    while i < t.len() && is_word_char_exec(t[i])
        invariant
            i <= t@.len(),
            word_end_from(t@, i as int) == word_end_from(t@, 0),
        decreases t@.len() - i,
    {
        i = i + 1;
    }
    assert(word_end_from(t@, i as int) == i);
    let w = string_of(&slice_chars(t, 0, i));
    assert(w@ =~= leading_word(t@));
    if check_misspelled_keyword(w.as_str()) {
        Some(w)
    } else {
        None
    }
}

/// The range of the first misspelled closing keyword on the node's lines.
fn find_narrowed_range(n: &SyntaxNode, ls: &Vec<Vec<char>>) -> (r: Option<Range>)
    requires
        lines_fit(lines_view(ls@)),
    ensures
        r == narrowed_from(lines_view(ls@), n.start_row as int, n.end_row as int),
{
    let ghost lv = lines_view(ls@);
    let mut k = n.start_row;
    while k <= n.end_row && k < ls.len()
        invariant
            n.start_row <= k,
            lv == lines_view(ls@),
            lines_fit(lv),
            narrowed_from(lv, n.start_row as int, n.end_row as int) == narrowed_from(
                lv,
                k as int,
                n.end_row as int,
            ),
        decreases ls@.len() - k,
    {
        let line = &ls[k];
        assert(lv[k as int] == line@);
        let (a, b) = trim_bounds(line);
        let t = slice_chars(line, a, b);
        if let Some(kw) = misspelled_token_of(&t) {
            proof {
                assert(t@ == line@.subrange(a as int, b as int));
                assert(line@.subrange(a as int, a + kw@.len()) =~= t@.take(kw@.len() as int));
            }
            return Some(keyword_range_at(line, k, kw.as_str(), a));
        }
        k = k + 1;
    }
    None
}

proof fn lemma_prefix_bytes(line: Seq<char>, kw: Seq<char>, i: int)
    requires
        occurs_at(line, kw, i),
    ensures
        encode_utf8(line.take(i)).len() + encode_utf8(kw).len() <= encode_utf8(line).len(),
{
    assert(line.take(i + kw.len()) =~= line.take(i) + kw);
    lemma_encode_concat(line.take(i), kw);
    lemma_encode_subrange(line, 0, i + kw.len());
    assert(line.subrange(0, i + kw.len()) =~= line.take(i + kw.len()));
}

/// The byte column of the first occurrence of `kw` in `line`.
fn keyword_column(line: &Vec<char>, kw: &str, a: usize) -> (c: usize)
    requires
        occurs_at(line@, kw@, a as int),
        encode_utf8(line@).len() <= usize::MAX,
    ensures
        c == (match find_seq(line@, kw@) {
            Some(i) => encode_utf8(line@.take(i)).len() as int,
            None => 0,
        }),
        c + encode_utf8(kw@).len() <= usize::MAX,
{
    let kwc = crate::text::chars_of(kw);
    proof {
        lemma_prefix_bytes(line@, kw@, a as int);
    }
    match find_chars(line, &kwc) {
        Some(i) => {
            let prefix = slice_chars(line, 0, i);
            proof {
                lemma_prefix_bytes(line@, kw@, i as int);
                assert(prefix@ =~= line@.take(i as int));
            }
            utf8_len(&prefix)
        },
        None => 0,
    }
}

/// The range of the keyword `kw`, which occurs in `line` at `a`.
fn keyword_range_at(line: &Vec<char>, k: usize, kw: &str, a: usize) -> (r: Range)
    requires
        occurs_at(line@, kw@, a as int),
        encode_utf8(line@).len() <= usize::MAX,
    ensures
        r == keyword_range(line@, k as int, kw@),
{
    let col = keyword_column(line, kw, a);
    let end = col + kw.len();
    Range {
        start: Position { line: k as u32, character: col as u32 },
        end: Position { line: k as u32, character: end as u32 },
    }
}

/// Every line encodes to at most `usize::MAX` bytes.
pub open spec fn lines_fit(ls: Seq<Seq<char>>) -> bool {
    forall|k: int| 0 <= k < ls.len() ==> encode_utf8(#[trigger] ls[k]).len() <= usize::MAX
}

/// Whether the node's message can be built.
fn message_can_be_built(n: &SyntaxNode) -> (r: bool)
    ensures
        r == message_defined(*n),
{
    if unexpected_token_of(n).is_some() {
        return true;
    }
    let cs = crate::text::chars_of(n.text.as_str());
    let (a, b) = trim_bounds(&cs);
    a < b || n.start_row < usize::MAX
}

/// The first child's trimmed text, when it is a closing keyword or a
/// misspelling of one.
fn unexpected_token_of(n: &SyntaxNode) -> (r: Option<Vec<char>>)
    ensures
        r matches Some(t) ==> unexpected_token(*n) == Some(t@),
        r is None ==> unexpected_token(*n) is None,
{
    if n.children.len() == 0 {
        return None;
    }
    let child = &n.children[0];
    let cs = crate::text::chars_of(child.text.as_str());
    let (a, b) = trim_bounds(&cs);
    let t = child.text.as_str().substring_char(a, b);
    if check_misspelled_keyword(t) || is_bsv_keyword(t) {
        Some(crate::text::chars_of(t))
    } else {
        None
    }
}

/// The message for an `ERROR` node: the unexpected closing keyword, else the
/// node's text (cut after 57 characters when longer than 60), else its line.
fn build_message(n: &SyntaxNode) -> (m: String)
    requires
        message_defined(*n),
    ensures
        m@ == message_of(*n),
{
    let mut m = String::new();
    if let Some(k) = unexpected_token_of(n) {
        append_str(&mut m, "Unexpected token: '");
        append_chars(&mut m, &k);
        append_str(&mut m, "'");
        return m;
    }
    let cs = crate::text::chars_of(n.text.as_str());
    let (a, b) = trim_bounds(&cs);
    if a < b {
        let t = n.text.as_str().substring_char(a, b);
        let tc = slice_chars(&cs, a, b);
        append_str(&mut m, "Syntax error near: '");
        if tc.len() > 60 {
            let head = slice_chars(&tc, 0, 57);
            append_chars(&mut m, &head);
            append_str(&mut m, "...");
        } else {
            append_str(&mut m, t);
        }
        append_str(&mut m, "'");
        return m;
    }
    append_str(&mut m, "Syntax error at line ");
    let digits = usize_decimal(n.start_row + 1);
    append_chars(&mut m, &digits);
    m
}

/// Whether `text` is a misspelling of `endmodule`.
pub fn check_misspelled_keyword(text: &str) -> (r: bool)
    ensures
        r == is_misspelled_keyword(text@),
{
    str_eq(text, "endm") || str_eq(text, "endmod") || str_eq(text, "endmodul") || str_eq(
        text,
        "endmodue",
    ) || str_eq(text, "endmodu") || str_eq(text, "endmodle")
}

/// Whether `text` is a closing keyword that is unexpected where it stands.
pub fn is_bsv_keyword(text: &str) -> (r: bool)
    ensures
        r == is_closing_keyword(text@),
{
    str_eq(text, "endmodule") || str_eq(text, "endpackage") || str_eq(text, "endinterface")
        || str_eq(text, "endfunction") || str_eq(text, "endmethod") || str_eq(text, "endrule")
        || str_eq(text, "endcase") || str_eq(text, "endclass") || str_eq(text, "endtypeclass")
        || str_eq(text, "endinstance") || str_eq(text, "endgenerate") || str_eq(
        text,
        "endclocking",
    ) || str_eq(text, "endproperty") || str_eq(text, "endspecify") || str_eq(text, "endconfig")
        || str_eq(text, "endtask")
}

proof fn lemma_reported_facts(s: Seq<SyntaxNode>, source: Seq<char>)
    ensures
        reported(s, source).len() <= s.len(),
        forall|k: int|
            0 <= k < reported(s, source).len() ==> (#[trigger] reported(s, source)[k]).severity
                == Some(DiagnosticSeverity::Error) && reported(s, source)[k].source == Some(
                "bsv"@,
            ),
    decreases s.len(),
{
    if s.len() > 0 {
        lemma_reported_facts(s.drop_last(), source);
    }
}

/// A tree without `ERROR` nodes gives no diagnostics; otherwise there is
/// at most one per `ERROR` node, each an error from `bsv`.
pub proof fn diagnostics_only_for_errors(tree: SyntaxNode, source: Seq<char>)
    ensures
        error_nodes(tree).len() == 0 ==> diagnostics_of(tree, source).len() == 0,
        diagnostics_of(tree, source).len() <= error_nodes(tree).len(),
        forall|k: int|
            0 <= k < diagnostics_of(tree, source).len() ==> (#[trigger] diagnostics_of(
                tree,
                source,
            )[k]).severity == Some(DiagnosticSeverity::Error) && diagnostics_of(
                tree,
                source,
            )[k].source == Some("bsv"@),
{
    lemma_reported_facts(error_nodes(tree), source);
}

proof fn lemma_reported_skips_false_positives(s: Seq<SyntaxNode>, source: Seq<char>)
    requires
        forall|k: int| 0 <= k < s.len() ==> is_false_positive(#[trigger] s[k], source),
    ensures
        reported(s, source).len() == 0,
    decreases s.len(),
{
    if s.len() > 0 {
        lemma_reported_skips_false_positives(s.drop_last(), source);
    }
}

/// When every `ERROR` node sits on a `#define` or `let` line, nothing is
/// reported.
pub proof fn false_positives_are_silent(tree: SyntaxNode, source: Seq<char>)
    requires
        forall|k: int|
            0 <= k < error_nodes(tree).len() ==> is_false_positive(
                #[trigger] error_nodes(tree)[k],
                source,
            ),
    ensures
        diagnostics_of(tree, source).len() == 0,
{
    lemma_reported_skips_false_positives(error_nodes(tree), source);
}

/// Whether an `ERROR` node of `source` is reported.
pub open spec fn reportable(source: Seq<char>) -> spec_fn(SyntaxNode) -> bool {
    |n: SyntaxNode| !is_false_positive(n, source)
}

/// The diagnostic of an `ERROR` node of `source`.
pub open spec fn diagnostic_for(source: Seq<char>) -> spec_fn(SyntaxNode) -> SpecDiagnostic {
    |n: SyntaxNode| diagnostic_of(n, source)
}

proof fn lemma_reported_is_filtered(s: Seq<SyntaxNode>, source: Seq<char>)
    ensures
        reported(s, source) == s.filter(reportable(source)).map_values(diagnostic_for(source)),
    decreases s.len(),
{
    let pred = reportable(source);
    let f = diagnostic_for(source);
    reveal(Seq::filter);
    if s.len() > 0 {
        lemma_reported_is_filtered(s.drop_last(), source);
        let sub = s.drop_last().filter(pred);
        assert(s.filter(pred) == (if pred(s.last()) {
            sub.push(s.last())
        } else {
            sub
        }));
        if pred(s.last()) {
            assert(sub.push(s.last()).map_values(f) =~= sub.map_values(f).push(f(s.last())));
        }
    } else {
        assert(s.filter(pred).map_values(f) =~= Seq::<SpecDiagnostic>::empty());
    }
}

proof fn lemma_narrowed_rows(ls: Seq<Seq<char>>, k: int, end: int)
    requires
        0 <= k,
        end <= u32::MAX,
    ensures
        narrowed_from(ls, k, end) matches Some(r) ==> k <= r.start.line && r.start.line
            == r.end.line && r.end.line <= end,
    decreases ls.len() - k,
{
    if !(k < 0 || k > end || k >= ls.len()) {
        if misspelled_token(trim(ls[k])) is None {
            lemma_narrowed_rows(ls, k + 1, end);
        }
    }
}

/// The rows of the `ERROR` node `n` hold the range of its diagnostic.
pub open spec fn within_rows(n: SyntaxNode, d: SpecDiagnostic) -> bool {
    n.start_row <= d.range.start.line <= d.range.end.line <= n.end_row
}

proof fn lemma_diagnostic_within_rows(n: SyntaxNode, source: Seq<char>)
    requires
        n.start_row <= n.end_row <= u32::MAX,
    ensures
        within_rows(n, diagnostic_of(n, source)),
{
    lemma_narrowed_rows(lines_of(source), n.start_row as int, n.end_row as int);
}

/// Each `ERROR` node that is not a false positive gets one diagnostic, in
/// the order of the walk, and no other node does. Each diagnostic is an
/// error from `bsv`, and lies within the rows of its node (when they fit a
/// `u32`).
pub proof fn one_diagnostic_per_reported_error(tree: SyntaxNode, source: Seq<char>)
    ensures
        diagnostics_of(tree, source) == error_nodes(tree).filter(reportable(source)).map_values(
            diagnostic_for(source),
        ),
        diagnostics_of(tree, source).len() == error_nodes(tree).filter(reportable(source)).len(),
        forall|i: int|
            0 <= i < diagnostics_of(tree, source).len() ==> (#[trigger] diagnostics_of(
                tree,
                source,
            )[i]).severity == Some(DiagnosticSeverity::Error) && diagnostics_of(
                tree,
                source,
            )[i].source == Some("bsv"@),
        forall|i: int|
            0 <= i < diagnostics_of(tree, source).len() && error_nodes(tree).filter(
                reportable(source),
            )[i].start_row <= error_nodes(tree).filter(reportable(source))[i].end_row
                <= u32::MAX ==> within_rows(
                error_nodes(tree).filter(reportable(source))[i],
                #[trigger] diagnostics_of(tree, source)[i],
            ),
{
    let k = error_nodes(tree).filter(reportable(source));
    let d = diagnostics_of(tree, source);
    lemma_reported_is_filtered(error_nodes(tree), source);
    assert forall|i: int|
        0 <= i < d.len() && k[i].start_row <= k[i].end_row <= u32::MAX implies within_rows(
        k[i],
        #[trigger] d[i],
    ) by {
        assert(d[i] == diagnostic_of(k[i], source));
        lemma_diagnostic_within_rows(k[i], source);
    }
    assert forall|i: int| 0 <= i < d.len() implies (#[trigger] d[i]).severity == Some(
        DiagnosticSeverity::Error,
    ) && d[i].source == Some("bsv"@) by {
        assert(d[i] == diagnostic_of(k[i], source));
    }
}

/// The diagnostic's range narrows to the first line of the node's rows whose
/// first word is a misspelled closing keyword: just that word.
pub proof fn narrowing_picks_first_misspelled_line(ls: Seq<Seq<char>>, a: int, b: int, i: int)
    requires
        0 <= a <= i <= b,
        i < ls.len(),
        misspelled_token(trim(ls[i])) is Some,
        forall|j: int| a <= j < i ==> misspelled_token(#[trigger] trim(ls[j])) is None,
    ensures
        narrowed_from(ls, a, b) == Some(
            keyword_range(ls[i], i, misspelled_token(trim(ls[i]))->0),
        ),
    decreases i - a,
{
    if a < i {
        assert(misspelled_token(trim(ls[a])) is None);
        narrowing_picks_first_misspelled_line(ls, a + 1, b, i);
    }
}

/// A line whose first word is `endmodule`, spelled right, is never taken
/// for a misspelling.
pub proof fn correct_endmodule_is_not_narrowed(t: Seq<char>)
    requires
        leading_word(t) == "endmodule"@,
    ensures
        misspelled_token(t) is None,
{
    reveal_strlit("endmodule");
    reveal_strlit("endm");
    reveal_strlit("endmod");
    reveal_strlit("endmodul");
    reveal_strlit("endmodue");
    reveal_strlit("endmodu");
    reveal_strlit("endmodle");
    let w = leading_word(t);
    assert(w.len() == 9);
    assert(w != "endm"@ && w != "endmod"@ && w != "endmodu"@);
    assert(w != "endmodul"@ && w != "endmodue"@ && w != "endmodle"@);
    assert(!is_misspelled_keyword(w));
}

/// The message of an `ERROR` node whose first child is no closing keyword,
/// with some text: that text, trimmed, cut after 57 characters with `...`
/// when it has more than 60.
pub proof fn message_shows_text(n: SyntaxNode)
    requires
        unexpected_token(n) is None,
        trim(n.text@).len() > 0,
    ensures
        message_of(n) == "Syntax error near: '"@ + (if trim(n.text@).len() > 60 {
            trim(n.text@).take(57) + "..."@
        } else {
            trim(n.text@)
        }) + "'"@,
{
}

} // verus!
