//! Folding ranges: block structures of the syntax tree, and runs of comments.
use vstd::prelude::*;

use crate::parser::references::{nodes_in_context, nodes_in_context_in, NodeInContext};
use crate::syntax::SyntaxNode;
use crate::text::{
    chars_of, contains_chars, contains_seq, line_spans, lines_of, slice_chars,
    starts_with, starts_with_str, str_eq, trim, trim_chars,
};

verus! {

#[derive(Debug, Clone, Copy, PartialEq, Eq, Structural)]
pub enum FoldingRangeKind {
    Comment,
    Imports,
    Region,
}

/// A range of lines an editor can fold.
#[derive(Debug)]
pub struct FoldingRange {
    pub start_line: u32,
    pub start_character: Option<u32>,
    pub end_line: u32,
    pub end_character: Option<u32>,
    pub kind: Option<FoldingRangeKind>,
    pub collapsed_text: Option<String>,
}

/// A folding range as plain values.
pub ghost struct SpecFold {
    pub start_line: u32,
    pub end_line: u32,
    pub kind: Option<FoldingRangeKind>,
}

impl FoldingRange {
    pub open spec fn view(&self) -> SpecFold {
        SpecFold { start_line: self.start_line, end_line: self.end_line, kind: self.kind }
    }

    /// The range has no columns and no collapsed text.
    pub open spec fn is_plain(&self) -> bool {
        self.start_character is None && self.end_character is None && self.collapsed_text is None
    }
}

pub open spec fn folds_view(v: Seq<FoldingRange>) -> Seq<SpecFold> {
    Seq::new(v.len(), |i: int| v[i].view())
}

pub open spec fn all_plain(v: Seq<FoldingRange>) -> bool {
    forall|i: int| 0 <= i < v.len() ==> #[trigger] v[i].is_plain()
}

/// The node kinds whose nodes fold.
pub open spec fn is_fold_block(k: Seq<char>) -> bool {
    ||| k == "moduleDef"@
    ||| k == "interfaceDecl"@
    ||| k == "methodDef"@
    ||| k == "functionDef"@
    ||| k == "rule"@
    ||| k == "typeclassDef"@
    ||| k == "typeclassInstanceDef"@
    ||| k == "actionBlock"@
    ||| k == "actionValueBlock"@
    ||| k == "subinterfaceDef"@
    ||| k == "subFunctionDef"@
    ||| k == "seqFsmStmt"@
    ||| k == "parFsmStmt"@
    ||| k == "interfaceExpr"@
    ||| k == "externModuleImport"@
    ||| k == "rulesExpr"@
    ||| k == "beginEndExpr"@
}

fn is_fold_block_exec(k: &str) -> (b: bool)
    ensures
        b == is_fold_block(k@),
{
    str_eq(k, "moduleDef") || str_eq(k, "interfaceDecl") || str_eq(k, "methodDef") || str_eq(
        k,
        "functionDef",
    ) || str_eq(k, "rule") || str_eq(k, "typeclassDef") || str_eq(k, "typeclassInstanceDef")
        || str_eq(k, "actionBlock") || str_eq(k, "actionValueBlock") || str_eq(
        k,
        "subinterfaceDef",
    ) || str_eq(k, "subFunctionDef") || str_eq(k, "seqFsmStmt") || str_eq(k, "parFsmStmt")
        || str_eq(k, "interfaceExpr") || str_eq(k, "externModuleImport") || str_eq(k, "rulesExpr")
        || str_eq(k, "beginEndExpr")
}

/// The fold of one block node, if it spans at least two lines: from its first
/// line to the line before its last, so the closing keyword stays visible
/// (or to its last line, when the block has just two lines).
pub open spec fn own_block_fold(n: SyntaxNode) -> Seq<SpecFold> {
    let start = n.start_row as u32;
    let end = n.end_row as u32;
    if is_fold_block(n.kind@) && end > start {
        seq![
            SpecFold {
                start_line: start,
                end_line: if end > start + 1 {
                    (end - 1) as u32
                } else {
                    end
                },
                kind: Some(FoldingRangeKind::Region),
            },
        ]
    } else {
        seq![]
    }
}

/// The block folds of the tree `n`, in pre-order.
pub open spec fn block_folds(n: SyntaxNode) -> Seq<SpecFold>
    decreases n,
{
    own_block_fold(n) + block_folds_in(n.children@)
}

pub open spec fn block_folds_in(s: Seq<SyntaxNode>) -> Seq<SpecFold>
    decreases s,
{
    if s.len() == 0 {
        seq![]
    } else {
        block_folds(s[0]) + block_folds_in(s.drop_first())
    }
}

/// A line is a `//` comment line.
pub open spec fn is_line_comment(l: Seq<char>) -> bool {
    starts_with(trim(l), "//"@)
}

/// A comment fold from line `a` to line `b`.
pub open spec fn comment_fold(a: int, b: int) -> SpecFold {
    SpecFold { start_line: a as u32, end_line: b as u32, kind: Some(FoldingRangeKind::Comment) }
}

/// The folds of runs of three or more `//` lines, scanning from line `i`;
/// `run` is where the current run of comment lines began, or `-1`.
pub open spec fn line_comment_folds(ls: Seq<Seq<char>>, i: int, run: int) -> Seq<SpecFold>
    decreases ls.len() - i,
{
    if i >= ls.len() {
        if run >= 0 && ls.len() - run >= 3 {
            seq![comment_fold(run, ls.len() - 1)]
        } else {
            seq![]
        }
    } else if is_line_comment(ls[i]) {
        line_comment_folds(ls, i + 1, if run >= 0 { run } else { i })
    } else {
        (if run >= 0 && i - run >= 3 {
            seq![comment_fold(run, i - 1)]
        } else {
            seq![]
        }) + line_comment_folds(ls, i + 1, -1)
    }
}

/// The first line from `k` on that holds `*/`, or the number of lines.
pub open spec fn closing_line(ls: Seq<Seq<char>>, k: int) -> int
    decreases ls.len() - k,
{
    if k >= ls.len() {
        ls.len() as int
    } else if contains_seq(ls[k], "*/"@) {
        k
    } else {
        closing_line(ls, k + 1)
    }
}

pub proof fn lemma_closing_line_bounds(ls: Seq<Seq<char>>, k: int)
    requires
        0 <= k,
    ensures
        k <= closing_line(ls, k) || (k > ls.len() && closing_line(ls, k) == ls.len()),
        closing_line(ls, k) <= ls.len() || k > ls.len(),
        closing_line(ls, k) >= 0,
    decreases ls.len() - k,
{
    if k < ls.len() && !contains_seq(ls[k], "*/"@) {
        lemma_closing_line_bounds(ls, k + 1);
    }
}

/// The folds of `/* ... */` comments spanning three or more lines, scanning
/// from line `i`.
pub open spec fn block_comment_folds(ls: Seq<Seq<char>>, i: int) -> Seq<SpecFold>
    decreases ls.len() - i,
{
    if i >= ls.len() || i < 0 {
        seq![]
    } else if starts_with(trim(ls[i]), "/*"@) {
        let j = closing_line(ls, i);
        proof {
            lemma_closing_line_bounds(ls, i);
        }
        let e = if j < ls.len() {
            j + 1
        } else {
            ls.len() as int
        };
        (if e - i >= 3 {
            seq![comment_fold(i, e - 1)]
        } else {
            seq![]
        }) + block_comment_folds(ls, e)
    } else {
        block_comment_folds(ls, i + 1)
    }
}

/// Where a fold goes among folds sorted by start line: after every fold that
/// starts no later.
pub open spec fn insert_by_line(sorted: Seq<SpecFold>, x: SpecFold) -> Seq<SpecFold>
    decreases sorted.len(),
{
    if sorted.len() == 0 {
        seq![x]
    } else if sorted.last().start_line <= x.start_line {
        sorted.push(x)
    } else {
        insert_by_line(sorted.drop_last(), x).push(sorted.last())
    }
}

/// `s` sorted by start line, keeping the order of folds that start on the
/// same line (a stable sort).
pub open spec fn sort_by_line(s: Seq<SpecFold>) -> Seq<SpecFold>
    decreases s.len(),
{
    if s.len() == 0 {
        seq![]
    } else {
        insert_by_line(sort_by_line(s.drop_last()), s.last())
    }
}

/// The folding ranges of a document: its block folds and its comment folds,
/// sorted by start line.
pub open spec fn folding_ranges_of(tree: SyntaxNode, source: Seq<char>) -> Seq<SpecFold> {
    let ls = lines_of(source);
    sort_by_line(block_folds(tree) + line_comment_folds(ls, 0, -1) + block_comment_folds(ls, 0))
}

fn fold(start: u32, end: u32, kind: FoldingRangeKind) -> (r: FoldingRange)
    ensures
        r.view() == (SpecFold { start_line: start, end_line: end, kind: Some(kind) }),
        r.is_plain(),
{
    FoldingRange {
        start_line: start,
        start_character: None,
        end_line: end,
        end_character: None,
        kind: Some(kind),
        collapsed_text: None,
    }
}

proof fn lemma_push_fold(v: Seq<FoldingRange>, r: FoldingRange)
    ensures
        folds_view(v.push(r)) == folds_view(v).push(r.view()),
        all_plain(v) && r.is_plain() ==> all_plain(v.push(r)),
{
    assert(folds_view(v.push(r)) =~= folds_view(v).push(r.view()));
    if all_plain(v) && r.is_plain() {
        assert forall|i: int| 0 <= i < v.push(r).len() implies #[trigger] v.push(r)[i].is_plain() by {
            if i < v.len() {
                assert(v.push(r)[i] == v[i]);
            }
        }
    }
}

/// Adds the block folds of the tree `n` to `ranges`.
fn collect_block_ranges(n: &SyntaxNode, ranges: &mut Vec<FoldingRange>)
    requires
        all_plain(old(ranges)@),
    ensures
        folds_view(final(ranges)@) == folds_view(old(ranges)@) + block_folds(*n),
        all_plain(final(ranges)@),
    decreases n,
{
    let ghost r0 = folds_view(ranges@);
    if is_fold_block_exec(n.kind.as_str()) {
        let start = n.start_row as u32;
        let end = n.end_row as u32;
        if end > start {
            let end_line = if end > start + 1 {
                end - 1
            } else {
                end
            };
            let f = fold(start, end_line, FoldingRangeKind::Region);
            proof {
                lemma_push_fold(ranges@, f);
            }
            ranges.push(f);
        }
    }
    assert(folds_view(ranges@) == r0 + own_block_fold(*n));
    let mut i: usize = 0;
    assert(n.children@.skip(0) =~= n.children@);
    let ghost r1 = folds_view(ranges@);
    assert(block_folds_in(n.children@) == block_folds_in(n.children@.take(0)) + block_folds_in(
        n.children@.skip(0),
    )) by {
        assert(n.children@.take(0) =~= Seq::<SyntaxNode>::empty());
        assert(Seq::<SpecFold>::empty() + block_folds_in(n.children@) =~= block_folds_in(n.children@));
    }
    while i < n.children.len()
        invariant
            i <= n.children@.len(),
            all_plain(ranges@),
            folds_view(ranges@) + block_folds_in(n.children@.skip(i as int)) == r1 + block_folds_in(
                n.children@,
            ),
        decreases n.children@.len() - i,
    {
        proof {
            assert(n.children@.skip(i as int)[0] == n.children@[i as int]);
            assert(n.children@.skip(i as int).drop_first() =~= n.children@.skip(i + 1));
        }
        let ghost before = folds_view(ranges@);
        collect_block_ranges(&n.children[i], ranges);
        proof {
            assert(folds_view(ranges@) + block_folds_in(n.children@.skip(i + 1)) =~= before
                + block_folds_in(n.children@.skip(i as int)));
        }
        i = i + 1;
    }
    proof {
        assert(n.children@.skip(i as int) =~= Seq::<SyntaxNode>::empty());
        assert(folds_view(ranges@) + Seq::<SpecFold>::empty() =~= folds_view(ranges@));
        assert(r1 + block_folds_in(n.children@) =~= r0 + block_folds(*n));
    }
}

/// Adds the folds of runs of three or more `//` lines.
fn collect_line_comment_ranges(ls: &Vec<Vec<char>>, ranges: &mut Vec<FoldingRange>)
    requires
        all_plain(old(ranges)@),
    ensures
        folds_view(final(ranges)@) == folds_view(old(ranges)@) + line_comment_folds(
            lines_view(ls@),
            0,
            -1,
        ),
        all_plain(final(ranges)@),
{
    let ghost lv = lines_view(ls@);
    let ghost r0 = folds_view(ranges@);
    let mut i: usize = 0;
    let mut run: Option<usize> = None;
    while i < ls.len()
        invariant
            i <= ls@.len(),
            lv == lines_view(ls@),
            all_plain(ranges@),
            run matches Some(r) ==> r < i,
            folds_view(ranges@) + line_comment_folds(lv, i as int, match run {
                Some(r) => r as int,
                None => -1,
            }) == r0 + line_comment_folds(lv, 0, -1),
        decreases ls@.len() - i,
    {
        let t = trim_chars(&ls[i]);
        assert(lv[i as int] == ls@[i as int]@);
        if starts_with_str(&t, "//") {
            if run.is_none() {
                run = Some(i);
            }
        } else {
            if let Some(r) = run {
                if i - r >= 3 {
                    let f = fold(r as u32, (i - 1) as u32, FoldingRangeKind::Comment);
                    proof {
                        lemma_push_fold(ranges@, f);
                    }
                    ranges.push(f);
                }
            }
            run = None;
        }
        i = i + 1;
    }
    if let Some(r) = run {
        if ls.len() - r >= 3 {
            let f = fold(r as u32, (ls.len() - 1) as u32, FoldingRangeKind::Comment);
            proof {
                lemma_push_fold(ranges@, f);
            }
            ranges.push(f);
        }
    }
    proof {
        assert(folds_view(ranges@) =~= r0 + line_comment_folds(lv, 0, -1));
    }
}

/// The character sequences of the lines `ls`.
pub open spec fn lines_view(ls: Seq<Vec<char>>) -> Seq<Seq<char>> {
    Seq::new(ls.len(), |i: int| ls[i]@)
}

/// Adds the folds of `/* ... */` comments spanning three or more lines.
fn collect_block_comment_ranges(ls: &Vec<Vec<char>>, ranges: &mut Vec<FoldingRange>)
    requires
        all_plain(old(ranges)@),
    ensures
        folds_view(final(ranges)@) == folds_view(old(ranges)@) + block_comment_folds(
            lines_view(ls@),
            0,
        ),
        all_plain(final(ranges)@),
{
    let ghost lv = lines_view(ls@);
    let ghost r0 = folds_view(ranges@);
    let close = chars_of("*/");
    let mut i: usize = 0;
    while i < ls.len()
        invariant
            i <= ls@.len(),
            lv == lines_view(ls@),
            close@ == "*/"@,
            all_plain(ranges@),
            folds_view(ranges@) + block_comment_folds(lv, i as int) == r0 + block_comment_folds(
                lv,
                0,
            ),
        decreases ls@.len() - i,
    {
        let t = trim_chars(&ls[i]);
        assert(lv[i as int] == ls@[i as int]@);
        if starts_with_str(&t, "/*") {
            let start = i;
            let ghost j0 = i as int;
            while i < ls.len() && !contains_chars(&ls[i], &close)
                invariant
                    start <= i <= ls@.len(),
                    lv == lines_view(ls@),
                    close@ == "*/"@,
                    closing_line(lv, start as int) == closing_line(lv, i as int),
                decreases ls@.len() - i,
            {
                assert(lv[i as int] == ls@[i as int]@);
                i = i + 1;
            }
            proof {
                if i < ls@.len() {
                    assert(lv[i as int] == ls@[i as int]@);
                }
            }
            if i < ls.len() {
                i = i + 1;
            }
            if i - start >= 3 {
                let f = fold(start as u32, (i - 1) as u32, FoldingRangeKind::Comment);
                proof {
                    lemma_push_fold(ranges@, f);
                }
                ranges.push(f);
            }
        } else {
            i = i + 1;
        }
    }
    proof {
        assert(folds_view(ranges@) =~= r0 + block_comment_folds(lv, 0));
    }
}

/// The lines of `source` as character vectors.
pub fn source_lines(source: &[char]) -> (ls: Vec<Vec<char>>)
    ensures
        lines_view(ls@) == lines_of(source@),
{
    let spans = line_spans(source);
    let mut ls: Vec<Vec<char>> = Vec::new();
    let mut i: usize = 0;
    while i < spans.len()
        invariant
            i <= spans@.len(),
            spans@.len() == lines_of(source@).len(),
            forall|k: int|
                #![trigger spans@[k]]
                0 <= k < spans@.len() ==> {
                    &&& spans@[k].0 <= spans@[k].1
                    &&& spans@[k].1 <= source@.len()
                    &&& lines_of(source@)[k] == source@.subrange(
                        spans@[k].0 as int,
                        spans@[k].1 as int,
                    )
                },
            ls@.len() == i,
            forall|k: int| #![trigger ls@[k]] 0 <= k < i ==> ls@[k]@ == lines_of(source@)[k],
        decreases spans@.len() - i,
    {
        let (a, b) = spans[i];
        let l = slice_chars(source, a, b);
        let ghost old_ls = ls@;
        ls.push(l);
        assert forall|k: int| #![trigger ls@[k]] 0 <= k < i + 1 implies ls@[k]@ == lines_of(
            source@,
        )[k] by {
            if k < i {
                assert(ls@[k] == old_ls[k]);
            }
        }
        i = i + 1;
    }
    assert(lines_view(ls@) =~= lines_of(source@));
    ls
}

proof fn lemma_insert_by_line(sorted: Seq<SpecFold>, x: SpecFold, j: int)
    requires
        0 <= j <= sorted.len(),
        forall|k: int| j <= k < sorted.len() ==> sorted[k].start_line > x.start_line,
        j == 0 || sorted[j - 1].start_line <= x.start_line,
    ensures
        insert_by_line(sorted, x) == sorted.take(j).push(x) + sorted.skip(j),
    decreases sorted.len(),
{
    if sorted.len() == 0 {
        assert(sorted.take(j).push(x) + sorted.skip(j) =~= seq![x]);
    } else if j == sorted.len() {
        assert(sorted.take(j) =~= sorted);
        assert(sorted.take(j).push(x) + sorted.skip(j) =~= sorted.push(x));
    } else {
        let d = sorted.drop_last();
        lemma_insert_by_line(d, x, j);
        assert(d.take(j) =~= sorted.take(j));
        assert((d.take(j).push(x) + d.skip(j)).push(sorted.last()) =~= sorted.take(j).push(x)
            + sorted.skip(j));
    }
}

/// Sorts folds by start line, keeping the order of folds on the same line.
fn sort_folds_by_line(v: Vec<FoldingRange>) -> (r: Vec<FoldingRange>)
    requires
        all_plain(v@),
    ensures
        folds_view(r@) == sort_by_line(folds_view(v@)),
        all_plain(r@),
{
    let ghost whole = folds_view(v@);
    let mut out: Vec<FoldingRange> = Vec::new();
    let mut v = v;
    let ghost mut k: int = 0;
    assert(whole.take(0) =~= Seq::<SpecFold>::empty());
    assert(whole.skip(0) =~= whole);
    while v.len() > 0
        invariant
            0 <= k <= whole.len(),
            all_plain(v@),
            all_plain(out@),
            folds_view(v@) == whole.skip(k),
            folds_view(out@) == sort_by_line(whole.take(k)),
        decreases v@.len(),
    {
        let ghost v0 = v@;
        let x = v.remove(0);
        proof {
            assert(folds_view(v0).len() == v0.len());
            assert(k < whole.len());
            assert(folds_view(v0)[0] == x.view());
            assert(whole.skip(k)[0] == x.view());
            assert forall|i: int| 0 <= i < v@.len() implies #[trigger] folds_view(v@)[i] == whole.skip(k + 1)[i] by {
                assert(v@[i] == v0[i + 1]);
                assert(folds_view(v0)[i + 1] == whole.skip(k)[i + 1]);
            }
            assert(folds_view(v@) =~= whole.skip(k + 1));
            assert(x.is_plain());
            assert forall|i: int| 0 <= i < v@.len() implies #[trigger] v@[i].is_plain() by {
                assert(v@[i] == v0[i + 1]);
            }
            assert(whole.take(k + 1).drop_last() =~= whole.take(k));
            assert(whole.take(k + 1).last() == x.view());
        }
        let mut j = out.len();
        while j > 0 && out[j - 1].start_line > x.start_line
            invariant
                j <= out@.len(),
                forall|q: int| j <= q < out@.len() ==> out@[q].start_line > x.start_line,
            decreases j,
        {
            j = j - 1;
        }
        let ghost o = folds_view(out@);
        let ghost ov = out@;
        out.insert(j, x);
        proof {
            lemma_insert_by_line(o, x.view(), j as int);
            assert(folds_view(out@) =~= o.take(j as int).push(x.view()) + o.skip(j as int));
            assert forall|i: int| 0 <= i < out@.len() implies #[trigger] out@[i].is_plain() by {
                if i < j {
                    assert(out@[i] == ov[i]);
                } else if i > j {
                    assert(out@[i] == ov[i - 1]);
                }
            }
            k = k + 1;
        }
    }
    proof {
        assert(whole.skip(k).len() == 0);
        assert(whole.take(k) =~= whole);
    }
    out
}

/// The folding ranges of a document: every block of the tree that spans two
/// or more lines (modules, interfaces, rules, methods, functions, action
/// blocks, typeclasses, FSM blocks, begin/end expressions), every run of three
/// or more `//` lines, and every `/* */` comment of three or more lines,
/// sorted by start line.
pub fn collect_folding_ranges(tree: &SyntaxNode, source: &str) -> (r: Vec<FoldingRange>)
    ensures
        folds_view(r@) == folding_ranges_of(*tree, source@),
        all_plain(r@),
{
    let mut ranges: Vec<FoldingRange> = Vec::new();
    collect_block_ranges(tree, &mut ranges);
    let cs = chars_of(source);
    let ls = source_lines(&cs);
    collect_line_comment_ranges(&ls, &mut ranges);
    collect_block_comment_ranges(&ls, &mut ranges);
    proof {
        assert(folds_view(Seq::<FoldingRange>::empty()) =~= Seq::<SpecFold>::empty());
        assert(Seq::<SpecFold>::empty() + block_folds(*tree) =~= block_folds(*tree));
    }
    sort_folds_by_line(ranges)
}

/// Folds ordered by start line.
pub open spec fn sorted_by_line(s: Seq<SpecFold>) -> bool {
    forall|i: int, j: int| 0 <= i <= j < s.len() ==> s[i].start_line <= s[j].start_line
}

proof fn lemma_insert_by_line_bounded(sorted: Seq<SpecFold>, x: SpecFold, b: u32)
    requires
        forall|k: int| 0 <= k < sorted.len() ==> sorted[k].start_line <= b,
        x.start_line <= b,
    ensures
        forall|k: int|
            0 <= k < insert_by_line(sorted, x).len() ==> insert_by_line(sorted, x)[k].start_line
                <= b,
        insert_by_line(sorted, x).len() == sorted.len() + 1,
    decreases sorted.len(),
{
    if sorted.len() > 0 && sorted.last().start_line > x.start_line {
        lemma_insert_by_line_bounded(sorted.drop_last(), x, b);
    }
}

proof fn lemma_insert_by_line_sorted(sorted: Seq<SpecFold>, x: SpecFold)
    requires
        sorted_by_line(sorted),
    ensures
        sorted_by_line(insert_by_line(sorted, x)),
    decreases sorted.len(),
{
    if sorted.len() == 0 {
    } else if sorted.last().start_line <= x.start_line {
    } else {
        let d = sorted.drop_last();
        let last = sorted.last();
        lemma_insert_by_line_sorted(d, x);
        lemma_insert_by_line_bounded(d, x, last.start_line);
        let r = insert_by_line(d, x);
        assert(insert_by_line(sorted, x) == r.push(last));
        assert forall|i: int, j: int|
            0 <= i <= j < r.push(last).len() implies r.push(last)[i].start_line <= r.push(
            last,
        )[j].start_line by {
            if j == r.len() {
                if i < r.len() {
                    assert(r[i].start_line <= last.start_line);
                }
            } else {
                assert(r.push(last)[i] == r[i]);
                assert(r.push(last)[j] == r[j]);
            }
        }
    }
}

proof fn lemma_sort_by_line_sorted(s: Seq<SpecFold>)
    ensures
        sorted_by_line(sort_by_line(s)),
    decreases s.len(),
{
    if s.len() > 0 {
        lemma_sort_by_line_sorted(s.drop_last());
        lemma_insert_by_line_sorted(sort_by_line(s.drop_last()), s.last());
    }
}

/// The folding ranges of a document come ordered by start line.
pub proof fn folding_ranges_sorted(tree: SyntaxNode, source: Seq<char>)
    ensures
        sorted_by_line(folding_ranges_of(tree, source)),
{
    let ls = lines_of(source);
    lemma_sort_by_line_sorted(
        block_folds(tree) + line_comment_folds(ls, 0, -1) + block_comment_folds(ls, 0),
    );
}

/// A fold that starts on a line before the one it ends on, and is a region
/// or a comment.
pub open spec fn fold_well_formed(f: SpecFold) -> bool {
    &&& f.start_line < f.end_line
    &&& (f.kind == Some(FoldingRangeKind::Region) || f.kind == Some(FoldingRangeKind::Comment))
}

pub open spec fn all_well_formed(s: Seq<SpecFold>) -> bool {
    forall|i: int| 0 <= i < s.len() ==> fold_well_formed(#[trigger] s[i])
}

proof fn lemma_concat_well_formed(a: Seq<SpecFold>, b: Seq<SpecFold>)
    requires
        all_well_formed(a),
        all_well_formed(b),
    ensures
        all_well_formed(a + b),
{
    assert forall|i: int| 0 <= i < (a + b).len() implies fold_well_formed(#[trigger] (a + b)[i]) by {
        if i < a.len() {
            assert((a + b)[i] == a[i]);
        } else {
            assert((a + b)[i] == b[i - a.len()]);
        }
    }
}

proof fn lemma_block_folds_well_formed(n: SyntaxNode)
    ensures
        all_well_formed(block_folds(n)),
    decreases n,
{
    lemma_block_folds_in_well_formed(n.children@);
    lemma_concat_well_formed(own_block_fold(n), block_folds_in(n.children@));
}

proof fn lemma_block_folds_in_well_formed(s: Seq<SyntaxNode>)
    ensures
        all_well_formed(block_folds_in(s)),
    decreases s,
{
    if s.len() > 0 {
        lemma_block_folds_well_formed(s[0]);
        lemma_block_folds_in_well_formed(s.drop_first());
        lemma_concat_well_formed(block_folds(s[0]), block_folds_in(s.drop_first()));
    }
}

proof fn lemma_line_comment_folds_well_formed(ls: Seq<Seq<char>>, i: int, run: int)
    requires
        ls.len() <= u32::MAX,
        0 <= i,
        run == -1 || 0 <= run < i,
    ensures
        all_well_formed(line_comment_folds(ls, i, run)),
    decreases ls.len() - i,
{
    if i >= ls.len() {
    } else if is_line_comment(ls[i]) {
        lemma_line_comment_folds_well_formed(ls, i + 1, if run >= 0 { run } else { i });
    } else {
        lemma_line_comment_folds_well_formed(ls, i + 1, -1);
        let head: Seq<SpecFold> = if run >= 0 && i - run >= 3 {
            seq![comment_fold(run, i - 1)]
        } else {
            seq![]
        };
        lemma_concat_well_formed(head, line_comment_folds(ls, i + 1, -1));
    }
}

proof fn lemma_block_comment_folds_well_formed(ls: Seq<Seq<char>>, i: int)
    requires
        ls.len() <= u32::MAX,
    ensures
        all_well_formed(block_comment_folds(ls, i)),
    decreases ls.len() - i,
{
    if i >= ls.len() || i < 0 {
    } else if starts_with(trim(ls[i]), "/*"@) {
        let j = closing_line(ls, i);
        lemma_closing_line_bounds(ls, i);
        let e = if j < ls.len() {
            j + 1
        } else {
            ls.len() as int
        };
        lemma_block_comment_folds_well_formed(ls, e);
        let head: Seq<SpecFold> = if e - i >= 3 {
            seq![comment_fold(i, e - 1)]
        } else {
            seq![]
        };
        lemma_concat_well_formed(head, block_comment_folds(ls, e));
    } else {
        lemma_block_comment_folds_well_formed(ls, i + 1);
    }
}

proof fn lemma_insert_by_line_well_formed(sorted: Seq<SpecFold>, x: SpecFold)
    requires
        all_well_formed(sorted),
        fold_well_formed(x),
    ensures
        all_well_formed(insert_by_line(sorted, x)),
    decreases sorted.len(),
{
    if sorted.len() > 0 && sorted.last().start_line > x.start_line {
        lemma_insert_by_line_well_formed(sorted.drop_last(), x);
        let r = insert_by_line(sorted.drop_last(), x);
        assert forall|i: int| 0 <= i < r.push(sorted.last()).len() implies fold_well_formed(
            #[trigger] r.push(sorted.last())[i],
        ) by {
            if i < r.len() {
                assert(r.push(sorted.last())[i] == r[i]);
            }
        }
    } else if sorted.len() > 0 {
        assert forall|i: int| 0 <= i < sorted.push(x).len() implies fold_well_formed(
            #[trigger] sorted.push(x)[i],
        ) by {
            if i < sorted.len() {
                assert(sorted.push(x)[i] == sorted[i]);
            }
        }
    }
}

proof fn lemma_sort_by_line_well_formed(s: Seq<SpecFold>)
    requires
        all_well_formed(s),
    ensures
        all_well_formed(sort_by_line(s)),
    decreases s.len(),
{
    if s.len() > 0 {
        lemma_sort_by_line_well_formed(s.drop_last());
        lemma_insert_by_line_well_formed(sort_by_line(s.drop_last()), s.last());
    }
}

/// Every folding range of a document (whose line numbers fit a `u32`)
/// starts on a line before the one it ends on, and is a region or a comment.
pub proof fn folding_ranges_well_formed(tree: SyntaxNode, source: Seq<char>)
    requires
        lines_of(source).len() <= u32::MAX,
    ensures
        all_well_formed(folding_ranges_of(tree, source)),
{
    let ls = lines_of(source);
    lemma_block_folds_well_formed(tree);
    lemma_line_comment_folds_well_formed(ls, 0, -1);
    lemma_block_comment_folds_well_formed(ls, 0);
    lemma_concat_well_formed(block_folds(tree), line_comment_folds(ls, 0, -1));
    lemma_concat_well_formed(
        block_folds(tree) + line_comment_folds(ls, 0, -1),
        block_comment_folds(ls, 0),
    );
    lemma_sort_by_line_well_formed(
        block_folds(tree) + line_comment_folds(ls, 0, -1) + block_comment_folds(ls, 0),
    );
}

proof fn lemma_scan_keeps_later_folds(ls: Seq<Seq<char>>, i: int, run: int, a: int, x: SpecFold)
    requires
        0 <= i <= a,
        i == a ==> run == -1,
        a > 0 ==> !is_line_comment(ls[a - 1]),
        a <= ls.len(),
        line_comment_folds(ls, a, -1).contains(x),
    ensures
        line_comment_folds(ls, i, run).contains(x),
    decreases a - i,
{
    if i < a {
        let r = line_comment_folds(ls, i + 1, -1);
        if is_line_comment(ls[i]) {
            lemma_scan_keeps_later_folds(ls, i + 1, if run >= 0 { run } else { i }, a, x);
        } else {
            lemma_scan_keeps_later_folds(ls, i + 1, -1, a, x);
            let head: Seq<SpecFold> = if run >= 0 && i - run >= 3 {
                seq![comment_fold(run, i - 1)]
            } else {
                seq![]
            };
            let k = choose|k: int| 0 <= k < r.len() && r[k] == x;
            assert((head + r)[head.len() + k] == x);
        }
    }
}

proof fn lemma_scan_folds_run(ls: Seq<Seq<char>>, i: int, a: int, b: int)
    requires
        0 <= a <= i <= b + 1,
        b - a >= 2,
        b < ls.len(),
        forall|k: int| a <= k <= b ==> is_line_comment(#[trigger] ls[k]),
        b + 1 < ls.len() ==> !is_line_comment(ls[b + 1]),
    ensures
        line_comment_folds(ls, i, if i == a { -1 } else { a }).contains(comment_fold(a, b)),
    decreases b + 1 - i,
{
    let run = if i == a {
        -1
    } else {
        a
    };
    if i <= b {
        lemma_scan_folds_run(ls, i + 1, a, b);
        assert(line_comment_folds(ls, i, run) == line_comment_folds(ls, i + 1, a));
    } else if i >= ls.len() {
        assert(line_comment_folds(ls, i, run) == seq![comment_fold(a, ls.len() - 1)]);
        assert(line_comment_folds(ls, i, run)[0] == comment_fold(a, b));
    } else {
        let out = line_comment_folds(ls, i, run);
        assert(out == seq![comment_fold(a, i - 1)] + line_comment_folds(ls, i + 1, -1));
        assert(out[0] == comment_fold(a, b));
    }
}

proof fn lemma_insert_by_line_keeps(sorted: Seq<SpecFold>, x: SpecFold, y: SpecFold)
    requires
        y == x || sorted.contains(y),
    ensures
        insert_by_line(sorted, x).contains(y),
    decreases sorted.len(),
{
    if sorted.len() == 0 {
        assert(seq![x][0] == y);
    } else if sorted.last().start_line <= x.start_line {
        if y == x {
            assert(sorted.push(x)[sorted.len() as int] == y);
        } else {
            let k = choose|k: int| 0 <= k < sorted.len() && sorted[k] == y;
            assert(sorted.push(x)[k] == y);
        }
    } else {
        let d = sorted.drop_last();
        let r = insert_by_line(d, x);
        if y == sorted.last() {
            assert(r.push(sorted.last())[r.len() as int] == y);
        } else {
            if y != x {
                let k = choose|k: int| 0 <= k < sorted.len() && sorted[k] == y;
                assert(d[k] == y);
            }
            lemma_insert_by_line_keeps(d, x, y);
            let k = choose|k: int| 0 <= k < r.len() && r[k] == y;
            assert(r.push(sorted.last())[k] == y);
        }
    }
}

proof fn lemma_sort_by_line_keeps(s: Seq<SpecFold>, y: SpecFold)
    requires
        s.contains(y),
    ensures
        sort_by_line(s).contains(y),
    decreases s.len(),
{
    let d = s.drop_last();
    if y == s.last() {
        lemma_insert_by_line_keeps(sort_by_line(d), s.last(), y);
    } else {
        let k = choose|k: int| 0 <= k < s.len() && s[k] == y;
        assert(d[k] == y);
        lemma_sort_by_line_keeps(d, y);
        lemma_insert_by_line_keeps(sort_by_line(d), s.last(), y);
    }
}

proof fn lemma_comment_run_contained(tree: SyntaxNode, source: Seq<char>, a: int, b: int)
    requires
        0 <= a,
        b - a >= 2,
        b < lines_of(source).len(),
        forall|k: int| a <= k <= b ==> is_line_comment(#[trigger] lines_of(source)[k]),
        a > 0 ==> !is_line_comment(lines_of(source)[a - 1]),
        b + 1 < lines_of(source).len() ==> !is_line_comment(lines_of(source)[b + 1]),
    ensures
        folding_ranges_of(tree, source).contains(comment_fold(a, b)),
{
    let ls = lines_of(source);
    let x = comment_fold(a, b);
    lemma_scan_folds_run(ls, a, a, b);
    lemma_scan_keeps_later_folds(ls, 0, -1, a, x);
    let lc = line_comment_folds(ls, 0, -1);
    let bf = block_folds(tree);
    let all = bf + lc + block_comment_folds(ls, 0);
    let k = choose|k: int| 0 <= k < lc.len() && lc[k] == x;
    assert(all[bf.len() + k] == x);
    lemma_sort_by_line_keeps(all, x);
}

/// How many comment folds of `v` start on line `s`.
pub open spec fn comment_folds_at(v: Seq<SpecFold>, s: int) -> nat
    decreases v.len(),
{
    if v.len() == 0 {
        0
    } else {
        comment_folds_at(v.drop_last(), s) + if v.last().kind == Some(FoldingRangeKind::Comment)
            && v.last().start_line == s {
            1nat
        } else {
            0nat
        }
    }
}

proof fn lemma_count_concat(a: Seq<SpecFold>, b: Seq<SpecFold>, s: int)
    ensures
        comment_folds_at(a + b, s) == comment_folds_at(a, s) + comment_folds_at(b, s),
    decreases b.len(),
{
    if b.len() == 0 {
        assert(a + b =~= a);
    } else {
        lemma_count_concat(a, b.drop_last(), s);
        assert((a + b).drop_last() =~= a + b.drop_last());
        assert((a + b).last() == b.last());
    }
}

proof fn lemma_count_single(x: SpecFold, s: int)
    ensures
        comment_folds_at(seq![x], s) == if x.kind == Some(FoldingRangeKind::Comment)
            && x.start_line == s {
            1nat
        } else {
            0nat
        },
{
    let e = Seq::<SpecFold>::empty();
    assert(seq![x].drop_last() =~= e);
    assert(comment_folds_at(e, s) == 0);
    assert(seq![x].last() == x);
}

proof fn lemma_count_insert(sorted: Seq<SpecFold>, x: SpecFold, s: int)
    ensures
        comment_folds_at(insert_by_line(sorted, x), s) == comment_folds_at(sorted, s) + (
        if x.kind == Some(FoldingRangeKind::Comment) && x.start_line == s {
            1nat
        } else {
            0nat
        }),
    decreases sorted.len(),
{
    if sorted.len() == 0 {
        lemma_count_single(x, s);
    } else if sorted.last().start_line <= x.start_line {
        assert(sorted.push(x).drop_last() =~= sorted);
    } else {
        let d = sorted.drop_last();
        lemma_count_insert(d, x, s);
        let r = insert_by_line(d, x);
        assert(r.push(sorted.last()).drop_last() =~= r);
    }
}

proof fn lemma_count_sort(v: Seq<SpecFold>, s: int)
    ensures
        comment_folds_at(sort_by_line(v), s) == comment_folds_at(v, s),
    decreases v.len(),
{
    if v.len() > 0 {
        lemma_count_sort(v.drop_last(), s);
        lemma_count_insert(sort_by_line(v.drop_last()), v.last(), s);
    }
}

proof fn lemma_block_folds_no_comment(n: SyntaxNode, s: int)
    ensures
        comment_folds_at(block_folds(n), s) == 0,
    decreases n,
{
    lemma_block_folds_in_no_comment(n.children@, s);
    lemma_count_concat(own_block_fold(n), block_folds_in(n.children@), s);
    let o = own_block_fold(n);
    if o.len() > 0 {
        lemma_count_single(o[0], s);
        assert(o == seq![o[0]]);
    } else {
        assert(o =~= Seq::<SpecFold>::empty());
    }
}

proof fn lemma_block_folds_in_no_comment(v: Seq<SyntaxNode>, s: int)
    ensures
        comment_folds_at(block_folds_in(v), s) == 0,
    decreases v,
{
    if v.len() > 0 {
        lemma_block_folds_no_comment(v[0], s);
        lemma_block_folds_in_no_comment(v.drop_first(), s);
        lemma_count_concat(block_folds(v[0]), block_folds_in(v.drop_first()), s);
    }
}

proof fn lemma_block_comments_not_at_line_comment(ls: Seq<Seq<char>>, i: int, s: int)
    requires
        ls.len() <= u32::MAX,
        0 <= s < ls.len(),
        is_line_comment(ls[s]),
    ensures
        comment_folds_at(block_comment_folds(ls, i), s) == 0,
    decreases ls.len() - i,
{
    if i >= ls.len() || i < 0 {
    } else if starts_with(trim(ls[i]), "/*"@) {
        let j = closing_line(ls, i);
        lemma_closing_line_bounds(ls, i);
        let e = if j < ls.len() {
            j + 1
        } else {
            ls.len() as int
        };
        lemma_block_comments_not_at_line_comment(ls, e, s);
        let head: Seq<SpecFold> = if e - i >= 3 {
            seq![comment_fold(i, e - 1)]
        } else {
            seq![]
        };
        lemma_count_concat(head, block_comment_folds(ls, e), s);
        if e - i >= 3 {
            lemma_count_single(comment_fold(i, e - 1), s);
            if i == s {
                reveal_strlit("/*");
                reveal_strlit("//");
                let t = trim(ls[s]);
                assert(t.take(2) == "//"@);
                assert(t.take(2) == "/*"@);
                assert("//"@[1] != "/*"@[1]);
            }
        } else {
            assert(head =~= Seq::<SpecFold>::empty());
        }
    } else {
        lemma_block_comments_not_at_line_comment(ls, i + 1, s);
    }
}

proof fn lemma_scan_none_at(ls: Seq<Seq<char>>, i: int, run: int, s: int)
    requires
        ls.len() <= u32::MAX,
        0 <= i,
        run == -1 || 0 <= run < i,
        0 <= s < (if run >= 0 { run } else { i }),
    ensures
        comment_folds_at(line_comment_folds(ls, i, run), s) == 0,
    decreases ls.len() - i,
{
    if i >= ls.len() {
        if run >= 0 && ls.len() - run >= 3 {
            lemma_count_single(comment_fold(run, ls.len() - 1), s);
        }
    } else if is_line_comment(ls[i]) {
        lemma_scan_none_at(ls, i + 1, if run >= 0 { run } else { i }, s);
    } else {
        lemma_scan_none_at(ls, i + 1, -1, s);
        let head: Seq<SpecFold> = if run >= 0 && i - run >= 3 {
            seq![comment_fold(run, i - 1)]
        } else {
            seq![]
        };
        lemma_count_concat(head, line_comment_folds(ls, i + 1, -1), s);
        if run >= 0 && i - run >= 3 {
            lemma_count_single(comment_fold(run, i - 1), s);
        } else {
            assert(head =~= Seq::<SpecFold>::empty());
        }
    }
}

proof fn lemma_scan_before_run(ls: Seq<Seq<char>>, i: int, run: int, s: int)
    requires
        ls.len() <= u32::MAX,
        0 <= i <= s < ls.len(),
        i == s ==> run == -1,
        run == -1 || 0 <= run < i,
        s > 0 ==> !is_line_comment(ls[s - 1]),
    ensures
        comment_folds_at(line_comment_folds(ls, i, run), s) == comment_folds_at(
            line_comment_folds(ls, s, -1),
            s,
        ),
    decreases s - i,
{
    if i < s {
        if is_line_comment(ls[i]) {
            lemma_scan_before_run(ls, i + 1, if run >= 0 { run } else { i }, s);
        } else {
            lemma_scan_before_run(ls, i + 1, -1, s);
            let head: Seq<SpecFold> = if run >= 0 && i - run >= 3 {
                seq![comment_fold(run, i - 1)]
            } else {
                seq![]
            };
            lemma_count_concat(head, line_comment_folds(ls, i + 1, -1), s);
            if run >= 0 && i - run >= 3 {
                lemma_count_single(comment_fold(run, i - 1), s);
            } else {
                assert(head =~= Seq::<SpecFold>::empty());
            }
        }
    }
}

proof fn lemma_scan_through_run(ls: Seq<Seq<char>>, s: int, k: int, i: int)
    requires
        ls.len() <= u32::MAX,
        0 <= s,
        1 <= k,
        s + k <= ls.len(),
        s <= i <= s + k,
        forall|j: int| s <= j < s + k ==> is_line_comment(#[trigger] ls[j]),
        s + k < ls.len() ==> !is_line_comment(ls[s + k]),
    ensures
        comment_folds_at(line_comment_folds(ls, i, if i == s { -1 } else { s }), s) == if k >= 3 {
            1nat
        } else {
            0nat
        },
    decreases s + k - i,
{
    let run = if i == s {
        -1
    } else {
        s
    };
    if i < s + k {
        lemma_scan_through_run(ls, s, k, i + 1);
        assert(line_comment_folds(ls, i, run) == line_comment_folds(ls, i + 1, s));
    } else if i >= ls.len() {
        if k >= 3 {
            lemma_count_single(comment_fold(s, ls.len() - 1), s);
        }
    } else {
        lemma_scan_none_at(ls, i + 1, -1, s);
        let head: Seq<SpecFold> = if i - s >= 3 {
            seq![comment_fold(s, i - 1)]
        } else {
            seq![]
        };
        lemma_count_concat(head, line_comment_folds(ls, i + 1, -1), s);
        if k >= 3 {
            lemma_count_single(comment_fold(s, i - 1), s);
        } else {
            assert(head =~= Seq::<SpecFold>::empty());
        }
    }
}

/// A maximal run of `k` lines `//` lines, from line `s`, gives exactly one
/// comment fold starting on line `s` when `k` is three or more, and it ends
/// on the run's last line; a run of one or two lines gives none.
pub proof fn comment_runs_fold_exactly(tree: SyntaxNode, source: Seq<char>, s: int, k: int)
    requires
        lines_of(source).len() <= u32::MAX,
        0 <= s,
        1 <= k,
        s + k <= lines_of(source).len(),
        forall|j: int| s <= j < s + k ==> is_line_comment(#[trigger] lines_of(source)[j]),
        s > 0 ==> !is_line_comment(lines_of(source)[s - 1]),
        s + k < lines_of(source).len() ==> !is_line_comment(lines_of(source)[s + k]),
    ensures
        k >= 3 ==> comment_folds_at(folding_ranges_of(tree, source), s) == 1
            && folding_ranges_of(tree, source).contains(comment_fold(s, s + k - 1)),
        k <= 2 ==> comment_folds_at(folding_ranges_of(tree, source), s) == 0,
{
    let ls = lines_of(source);
    let bf = block_folds(tree);
    let lc = line_comment_folds(ls, 0, -1);
    let bc = block_comment_folds(ls, 0);
    lemma_scan_before_run(ls, 0, -1, s);
    lemma_scan_through_run(ls, s, k, s);
    lemma_block_folds_no_comment(tree, s);
    lemma_block_comments_not_at_line_comment(ls, 0, s);
    lemma_count_concat(bf, lc, s);
    lemma_count_concat(bf + lc, bc, s);
    lemma_count_sort(bf + lc + bc, s);
    if k >= 3 {
        lemma_comment_run_contained(tree, source, s, s + k - 1);
    }
}

/// The kinds of node that fold as a block: modules, interfaces, methods,
/// functions, rules, typeclasses and their instances, action blocks,
/// subinterfaces, local functions, FSM blocks, interface and rules
/// expressions, imported modules, and begin/end blocks.
pub open spec fn folds_as_block(k: Seq<char>) -> bool {
    k == "moduleDef"@ || k == "interfaceDecl"@ || k == "methodDef"@ || k == "functionDef"@ || k
        == "rule"@ || k == "typeclassDef"@ || k == "typeclassInstanceDef"@ || k == "actionBlock"@
        || k == "actionValueBlock"@ || k == "subinterfaceDef"@ || k == "subFunctionDef"@ || k
        == "seqFsmStmt"@ || k == "parFsmStmt"@ || k == "interfaceExpr"@ || k
        == "externModuleImport"@ || k == "rulesExpr"@ || k == "beginEndExpr"@
}

/// The fold a block node spanning rows `start` to `end` gives: from its first
/// row to the row before its last, or to its last when it has two rows.
pub open spec fn block_region(m: SyntaxNode) -> SpecFold {
    SpecFold {
        start_line: m.start_row as u32,
        end_line: if m.end_row as u32 > m.start_row as u32 + 1 {
            (m.end_row as u32 - 1) as u32
        } else {
            m.end_row as u32
        },
        kind: Some(FoldingRangeKind::Region),
    }
}

proof fn lemma_blocks_fold(n: SyntaxNode, p: Option<Seq<char>>, g: Option<Seq<char>>)
    ensures
        forall|j: int|
            0 <= j < nodes_in_context(n, p, g).len() && folds_as_block(
                (#[trigger] nodes_in_context(n, p, g)[j]).0.kind@,
            ) && nodes_in_context(n, p, g)[j].0.end_row as u32 > nodes_in_context(
                n,
                p,
                g,
            )[j].0.start_row as u32 ==> block_folds(n).contains(
                block_region(nodes_in_context(n, p, g)[j].0),
            ),
    decreases n,
{
    let c = nodes_in_context(n, p, g);
    let inner = nodes_in_context_in(n.children@, Some(n.kind@), p);
    let own = own_block_fold(n);
    let rest = block_folds_in(n.children@);
    lemma_blocks_fold_in(n.children@, Some(n.kind@), p);
    assert(c == seq![(n, p, g)] + inner);
    assert forall|j: int|
        0 <= j < c.len() && folds_as_block((#[trigger] c[j]).0.kind@) && c[j].0.end_row as u32
            > c[j].0.start_row as u32 implies block_folds(n).contains(block_region(c[j].0)) by {
        if j == 0 {
            assert(c[0].0 == n);
            assert(own[0] == block_region(n));
            assert((own + rest)[0] == own[0]);
        } else {
            assert(c[j] == inner[j - 1]);
            let x = block_region(c[j].0);
            assert(rest.contains(x));
            let k = choose|k: int| 0 <= k < rest.len() && rest[k] == x;
            assert((own + rest)[own.len() + k] == x);
        }
    }
}

proof fn lemma_blocks_fold_in(s: Seq<SyntaxNode>, p: Option<Seq<char>>, g: Option<Seq<char>>)
    ensures
        forall|j: int|
            0 <= j < nodes_in_context_in(s, p, g).len() && folds_as_block(
                (#[trigger] nodes_in_context_in(s, p, g)[j]).0.kind@,
            ) && nodes_in_context_in(s, p, g)[j].0.end_row as u32 > nodes_in_context_in(
                s,
                p,
                g,
            )[j].0.start_row as u32 ==> block_folds_in(s).contains(
                block_region(nodes_in_context_in(s, p, g)[j].0),
            ),
    decreases s,
{
    if s.len() > 0 {
        let a = nodes_in_context(s[0], p, g);
        let b = nodes_in_context_in(s.drop_first(), p, g);
        let c = nodes_in_context_in(s, p, g);
        let fa = block_folds(s[0]);
        let fb = block_folds_in(s.drop_first());
        lemma_blocks_fold(s[0], p, g);
        lemma_blocks_fold_in(s.drop_first(), p, g);
        assert(c == a + b);
        assert forall|j: int|
            0 <= j < c.len() && folds_as_block((#[trigger] c[j]).0.kind@) && c[j].0.end_row as u32
                > c[j].0.start_row as u32 implies block_folds_in(s).contains(block_region(c[j].0)) by {
            let x = block_region(c[j].0);
            if j < a.len() {
                assert(c[j] == a[j]);
                assert(fa.contains(x));
                let k = choose|k: int| 0 <= k < fa.len() && fa[k] == x;
                assert((fa + fb)[k] == x);
            } else {
                assert(c[j] == b[j - a.len()]);
                assert(fb.contains(x));
                let k = choose|k: int| 0 <= k < fb.len() && fb[k] == x;
                assert((fa + fb)[fa.len() + k] == x);
            }
        }
    } else {
        assert(nodes_in_context_in(s, p, g).len() == 0);
    }
}

/// Every node of the tree of a folding kind (see `folds_as_block`) that
/// spans two rows or more folds as a region, from its first row to the row
/// before its last (to its last, when it has two rows).
pub proof fn block_nodes_fold(tree: SyntaxNode, source: Seq<char>)
    ensures
        forall|j: int|
            0 <= j < nodes_in_context(tree, None, None).len() && folds_as_block(
                (#[trigger] nodes_in_context(tree, None, None)[j]).0.kind@,
            ) && nodes_in_context(tree, None, None)[j].0.end_row as u32 > nodes_in_context(
                tree,
                None,
                None,
            )[j].0.start_row as u32 ==> folding_ranges_of(tree, source).contains(
                block_region(nodes_in_context(tree, None, None)[j].0),
            ),
{
    let c = nodes_in_context(tree, None, None);
    let ls = lines_of(source);
    let bf = block_folds(tree);
    let all = bf + line_comment_folds(ls, 0, -1) + block_comment_folds(ls, 0);
    lemma_blocks_fold(tree, None, None);
    assert forall|j: int|
        0 <= j < c.len() && folds_as_block((#[trigger] c[j]).0.kind@) && c[j].0.end_row as u32
            > c[j].0.start_row as u32 implies folding_ranges_of(tree, source).contains(
        block_region(c[j].0),
    ) by {
        let x = block_region(c[j].0);
        let k = choose|k: int| 0 <= k < bf.len() && bf[k] == x;
        assert(all[k] == x);
        lemma_sort_by_line_keeps(all, x);
    }
}

/// Some node of `c` of a folding kind, spanning two rows or more, gives the
/// fold `f`.
pub open spec fn folded_by_some_block(c: Seq<NodeInContext>, f: SpecFold) -> bool {
    exists|j: int|
        0 <= j < c.len() && folds_as_block((#[trigger] c[j]).0.kind@) && c[j].0.end_row as u32
            > c[j].0.start_row as u32 && f == block_region(c[j].0)
}

proof fn lemma_folded_concat(a: Seq<NodeInContext>, b: Seq<NodeInContext>, f: SpecFold)
    requires
        folded_by_some_block(a, f) || folded_by_some_block(b, f),
    ensures
        folded_by_some_block(a + b, f),
{
    if folded_by_some_block(a, f) {
        let j = choose|j: int|
            0 <= j < a.len() && folds_as_block((#[trigger] a[j]).0.kind@) && a[j].0.end_row as u32
                > a[j].0.start_row as u32 && f == block_region(a[j].0);
        assert((a + b)[j] == a[j]);
    } else {
        let j = choose|j: int|
            0 <= j < b.len() && folds_as_block((#[trigger] b[j]).0.kind@) && b[j].0.end_row as u32
                > b[j].0.start_row as u32 && f == block_region(b[j].0);
        assert((a + b)[a.len() + j] == b[j]);
    }
}

proof fn lemma_block_folds_from_nodes(n: SyntaxNode, p: Option<Seq<char>>, g: Option<Seq<char>>)
    ensures
        forall|k: int|
            0 <= k < block_folds(n).len() ==> folded_by_some_block(
                nodes_in_context(n, p, g),
                #[trigger] block_folds(n)[k],
            ),
    decreases n,
{
    let c = nodes_in_context(n, p, g);
    let inner = nodes_in_context_in(n.children@, Some(n.kind@), p);
    let own = own_block_fold(n);
    let rest = block_folds_in(n.children@);
    let head: Seq<NodeInContext> = seq![(n, p, g)];
    lemma_block_folds_in_from_nodes(n.children@, Some(n.kind@), p);
    assert(c == head + inner);
    assert(block_folds(n) == own + rest);
    assert forall|k: int| 0 <= k < (own + rest).len() implies folded_by_some_block(
        c,
        #[trigger] (own + rest)[k],
    ) by {
        if k < own.len() {
            assert((own + rest)[k] == own[k]);
            assert(own[k] == block_region(n));
            assert(head[0].0 == n);
            assert(folded_by_some_block(head, own[k]));
        } else {
            assert((own + rest)[k] == rest[k - own.len()]);
            assert(folded_by_some_block(inner, rest[k - own.len()]));
        }
        lemma_folded_concat(head, inner, (own + rest)[k]);
    }
}

proof fn lemma_block_folds_in_from_nodes(s: Seq<SyntaxNode>, p: Option<Seq<char>>, g: Option<Seq<char>>)
    ensures
        forall|k: int|
            0 <= k < block_folds_in(s).len() ==> folded_by_some_block(
                nodes_in_context_in(s, p, g),
                #[trigger] block_folds_in(s)[k],
            ),
    decreases s,
{
    if s.len() > 0 {
        let a = nodes_in_context(s[0], p, g);
        let b = nodes_in_context_in(s.drop_first(), p, g);
        let fa = block_folds(s[0]);
        let fb = block_folds_in(s.drop_first());
        lemma_block_folds_from_nodes(s[0], p, g);
        lemma_block_folds_in_from_nodes(s.drop_first(), p, g);
        assert(nodes_in_context_in(s, p, g) == a + b);
        assert(block_folds_in(s) == fa + fb);
        assert forall|k: int| 0 <= k < (fa + fb).len() implies folded_by_some_block(
            a + b,
            #[trigger] (fa + fb)[k],
        ) by {
            if k < fa.len() {
                assert((fa + fb)[k] == fa[k]);
                assert(folded_by_some_block(a, fa[k]));
            } else {
                assert((fa + fb)[k] == fb[k - fa.len()]);
                assert(folded_by_some_block(b, fb[k - fa.len()]));
            }
            lemma_folded_concat(a, b, (fa + fb)[k]);
        }
    } else {
        assert(block_folds_in(s).len() == 0);
    }
}

proof fn lemma_line_comment_folds_are_comments(ls: Seq<Seq<char>>, i: int, run: int)
    ensures
        forall|k: int|
            0 <= k < line_comment_folds(ls, i, run).len() ==> (#[trigger] line_comment_folds(
                ls,
                i,
                run,
            )[k]).kind == Some(FoldingRangeKind::Comment),
    decreases ls.len() - i,
{
    if i >= ls.len() {
    } else if is_line_comment(ls[i]) {
        lemma_line_comment_folds_are_comments(ls, i + 1, if run >= 0 { run } else { i });
    } else {
        lemma_line_comment_folds_are_comments(ls, i + 1, -1);
        let head: Seq<SpecFold> = if run >= 0 && i - run >= 3 {
            seq![comment_fold(run, i - 1)]
        } else {
            seq![]
        };
        let r = line_comment_folds(ls, i + 1, -1);
        assert forall|k: int| 0 <= k < (head + r).len() implies (#[trigger] (head + r)[k]).kind
            == Some(FoldingRangeKind::Comment) by {
            if k < head.len() {
                assert((head + r)[k] == head[k]);
            } else {
                assert((head + r)[k] == r[k - head.len()]);
            }
        }
    }
}

proof fn lemma_block_comment_folds_are_comments(ls: Seq<Seq<char>>, i: int)
    ensures
        forall|k: int|
            0 <= k < block_comment_folds(ls, i).len() ==> (#[trigger] block_comment_folds(ls, i)[k]).kind
                == Some(FoldingRangeKind::Comment),
    decreases ls.len() - i,
{
    if i >= ls.len() || i < 0 {
    } else if starts_with(trim(ls[i]), "/*"@) {
        let j = closing_line(ls, i);
        lemma_closing_line_bounds(ls, i);
        let e = if j < ls.len() {
            j + 1
        } else {
            ls.len() as int
        };
        lemma_block_comment_folds_are_comments(ls, e);
        let head: Seq<SpecFold> = if e - i >= 3 {
            seq![comment_fold(i, e - 1)]
        } else {
            seq![]
        };
        let r = block_comment_folds(ls, e);
        assert forall|k: int| 0 <= k < (head + r).len() implies (#[trigger] (head + r)[k]).kind
            == Some(FoldingRangeKind::Comment) by {
            if k < head.len() {
                assert((head + r)[k] == head[k]);
            } else {
                assert((head + r)[k] == r[k - head.len()]);
            }
        }
    } else {
        lemma_block_comment_folds_are_comments(ls, i + 1);
    }
}

proof fn lemma_insert_by_line_members(sorted: Seq<SpecFold>, x: SpecFold, y: SpecFold)
    requires
        insert_by_line(sorted, x).contains(y),
    ensures
        y == x || sorted.contains(y),
    decreases sorted.len(),
{
    if sorted.len() == 0 {
        let k = choose|k: int| 0 <= k < seq![x].len() && seq![x][k] == y;
    } else if sorted.last().start_line <= x.start_line {
        let k = choose|k: int| 0 <= k < sorted.push(x).len() && sorted.push(x)[k] == y;
        if k < sorted.len() {
            assert(sorted[k] == y);
        }
    } else {
        let d = sorted.drop_last();
        let r = insert_by_line(d, x);
        let k = choose|k: int| 0 <= k < r.push(sorted.last()).len() && r.push(sorted.last())[k] == y;
        if k < r.len() {
            assert(r[k] == y);
            lemma_insert_by_line_members(d, x, y);
            if y != x {
                let m = choose|m: int| 0 <= m < d.len() && d[m] == y;
                assert(sorted[m] == y);
            }
        } else {
            assert(sorted[sorted.len() - 1] == y);
        }
    }
}

proof fn lemma_sort_by_line_members(s: Seq<SpecFold>, y: SpecFold)
    requires
        sort_by_line(s).contains(y),
    ensures
        s.contains(y),
    decreases s.len(),
{
    let d = s.drop_last();
    lemma_insert_by_line_members(sort_by_line(d), s.last(), y);
    if y == s.last() {
        assert(s[s.len() - 1] == y);
    } else {
        lemma_sort_by_line_members(d, y);
        let m = choose|m: int| 0 <= m < d.len() && d[m] == y;
        assert(s[m] == y);
    }
}

/// Every region fold of a document comes from a node of a folding kind
/// (see `folds_as_block`) that spans two rows or more.
pub proof fn region_folds_come_from_block_nodes(tree: SyntaxNode, source: Seq<char>, f: SpecFold)
    requires
        folding_ranges_of(tree, source).contains(f),
        f.kind == Some(FoldingRangeKind::Region),
    ensures
        folded_by_some_block(nodes_in_context(tree, None, None), f),
{
    let ls = lines_of(source);
    let bf = block_folds(tree);
    let lc = line_comment_folds(ls, 0, -1);
    let bc = block_comment_folds(ls, 0);
    let all = bf + lc + bc;
    lemma_sort_by_line_members(all, f);
    lemma_block_folds_from_nodes(tree, None, None);
    lemma_line_comment_folds_are_comments(ls, 0, -1);
    lemma_block_comment_folds_are_comments(ls, 0);
    let k = choose|k: int| 0 <= k < all.len() && all[k] == f;
    if k < bf.len() {
        assert(all[k] == bf[k]);
    } else if k < bf.len() + lc.len() {
        assert(all[k] == lc[k - bf.len()]);
    } else {
        assert(all[k] == bc[k - bf.len() - lc.len()]);
    }
}

} // verus!
