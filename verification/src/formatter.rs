//! Reformatting a BSV document line by line, guided by its syntax tree.
//!
//! Each line is re-indented by three spaces per enclosing block, then
//! spaced around operators and keywords; trailing white space goes, runs of
//! blank lines shrink to one, and the text ends with a newline. Comments and
//! preprocessor lines are kept as they are, apart from trailing white space.
use vstd::prelude::*;

use vstd::string::StrSliceExecFns;

use crate::parser::folding::{lines_view, source_lines};
use crate::pattern::{regex_compiles, regex_replace_all, replace_all};
use crate::syntax::{kind_is, SyntaxNode};
use crate::text::{
    chars_of, contains_chars, contains_seq, is_ws, lines_of, push_all, starts_with,
    starts_with_str, str_eq, string_of, trim, trim_chars, trim_end, trim_end_chars,
    trim_start,
};

verus! {

/// Nodes whose inner lines get one more level of indent.
pub open spec fn is_block_kind(k: Seq<char>) -> bool {
    ||| k == "moduleDef"@
    ||| k == "interfaceDecl"@
    ||| k == "interfaceExpr"@
    ||| k == "methodDef"@
    ||| k == "functionDef"@
    ||| k == "rule"@
    ||| k == "typeclassDef"@
    ||| k == "typeclassInstanceDef"@
    ||| k == "externModuleImport"@
    ||| k == "actionBlock"@
    ||| k == "actionValueBlock"@
    ||| k == "seqFsmStmt"@
    ||| k == "parFsmStmt"@
    ||| k == "beginEndExpr"@
    ||| k == "subinterfaceDef"@
    ||| k == "typedefStruct"@
    ||| k == "typedefEnum"@
    ||| k == "typedefTaggedUnion"@
    ||| k == "rulesExpr"@
}

/// Statement nodes that indent their inner lines when they wrap a
/// `begin`/`end` block.
pub open spec fn is_wrapper_kind(k: Seq<char>) -> bool {
    ||| k == "actionStmt"@
    ||| k == "expressionStmt"@
    ||| k == "actionValueStmt"@
    ||| k == "functionBodyStmt"@
}

/// The node's last child is an `end` token.
pub open spec fn ends_with_end(n: SyntaxNode) -> bool {
    n.children@.len() > 0 && n.children@.last().kind@ == "end"@
}

/// The block the node opens, as its first and last row: a block node inside
/// no block of the same kind that spans two lines or more, or a wrapper
/// spanning three lines or more that ends in `end`.
pub open spec fn own_span(n: SyntaxNode, phantom: Option<Seq<char>>) -> Seq<(usize, usize)> {
    let k = n.kind@;
    if phantom == Some(k) {
        seq![]
    } else if is_block_kind(k) {
        if n.end_row > n.start_row {
            seq![(n.start_row, n.end_row)]
        } else {
            seq![]
        }
    } else if is_wrapper_kind(k) {
        if n.end_row > n.start_row + 1 && ends_with_end(n) {
            seq![(n.start_row, n.end_row)]
        } else {
            seq![]
        }
    } else {
        seq![]
    }
}

/// The block kind the node's children are nested in: the node's own kind
/// when it opens a block, else the one it is nested in. A block inside a
/// block of its own kind comes from a split preprocessor branch, not from
/// the program's structure, and counts for nothing.
pub open spec fn child_phantom(n: SyntaxNode, phantom: Option<Seq<char>>) -> Option<Seq<char>> {
    if phantom != Some(n.kind@) && is_block_kind(n.kind@) {
        Some(n.kind@)
    } else {
        phantom
    }
}

/// The blocks of the tree `n`, in pre-order.
pub open spec fn block_spans(n: SyntaxNode, phantom: Option<Seq<char>>) -> Seq<(usize, usize)>
    decreases n,
{
    own_span(n, phantom) + block_spans_in(n.children@, child_phantom(n, phantom))
}

/// The blocks of the trees `s`, in order.
pub open spec fn block_spans_in(s: Seq<SyntaxNode>, phantom: Option<Seq<char>>) -> Seq<
    (usize, usize),
>
    decreases s,
{
    if s.len() == 0 {
        seq![]
    } else {
        block_spans(s[0], phantom) + block_spans_in(s.drop_first(), phantom)
    }
}

/// The number of blocks that open on `line`.
pub open spec fn opening_count(spans: Seq<(usize, usize)>, line: int) -> int
    decreases spans.len(),
{
    if spans.len() == 0 {
        0
    } else {
        opening_count(spans.drop_last(), line) + if spans.last().0 == line {
            1int
        } else {
            0
        }
    }
}

/// The number of blocks that close on `line`.
pub open spec fn closing_count(spans: Seq<(usize, usize)>, line: int) -> int
    decreases spans.len(),
{
    if spans.len() == 0 {
        0
    } else {
        closing_count(spans.drop_last(), line) + if spans.last().1 == line {
            1int
        } else {
            0
        }
    }
}

/// The last row any block touches (0 when there is none).
pub open spec fn last_block_row(spans: Seq<(usize, usize)>) -> int
    decreases spans.len(),
{
    if spans.len() == 0 {
        0
    } else {
        let m = last_block_row(spans.drop_last());
        let p = spans.last();
        let a = if p.0 >= p.1 {
            p.0 as int
        } else {
            p.1 as int
        };
        if a >= m {
            a
        } else {
            m
        }
    }
}

/// `a - b`, or 0 when that is negative.
pub open spec fn minus_sat(a: int, b: int) -> int {
    if a - b < 0 {
        0
    } else {
        a - b
    }
}

/// `a + b`, or `usize::MAX` when that is larger.
pub open spec fn plus_sat(a: int, b: int) -> int {
    if a + b > usize::MAX {
        usize::MAX as int
    } else {
        a + b
    }
}

/// The nesting depth in force at the start of `line`: each line first
/// closes the blocks that end on it, then opens those that start on it.
pub open spec fn depth_before(spans: Seq<(usize, usize)>, line: int) -> int
    decreases line,
{
    if line <= 0 {
        0
    } else {
        plus_sat(
            minus_sat(depth_before(spans, line - 1), closing_count(spans, line - 1)),
            opening_count(spans, line - 1),
        )
    }
}

/// The indent level of `line`: its depth after the blocks that close on it,
/// or 0 past the last row any block touches.
pub open spec fn indent_level(spans: Seq<(usize, usize)>, line: int) -> int {
    if line <= last_block_row(spans) {
        minus_sat(depth_before(spans, line), closing_count(spans, line))
    } else {
        0
    }
}

/// The indent levels of the first `n` lines.
pub open spec fn indent_levels(spans: Seq<(usize, usize)>, n: int) -> Seq<int> {
    Seq::new(n as nat, |l: int| indent_level(spans, l))
}

pub open spec fn opt_view(o: Option<&str>) -> Option<Seq<char>> {
    match o {
        Some(s) => Some(s@),
        None => None,
    }
}

pub open spec fn usize_seq(v: Seq<usize>) -> Seq<int> {
    Seq::new(v.len(), |i: int| v[i] as int)
}

/// Adds the blocks of the tree `n` to `spans`.
fn collect_block_lines(n: &SyntaxNode, spans: &mut Vec<(usize, usize)>, phantom: Option<&str>)
    ensures
        final(spans)@ == old(spans)@ + block_spans(*n, opt_view(phantom)),
    decreases n,
{
    let ghost start = spans@;
    let ghost ph = opt_view(phantom);
    let kind = n.kind.as_str();
    let is_phantom = match phantom {
        Some(p) => str_eq(p, kind),
        None => false,
    };
    assert(is_phantom == (ph == Some(n.kind@)));
    let block = is_block_kind_exec(kind);
    if !is_phantom && block {
        if n.end_row > n.start_row {
            spans.push((n.start_row, n.end_row));
        }
    } else if !is_phantom && is_wrapper_kind_exec(kind) {
        if n.end_row > n.start_row && n.end_row - n.start_row > 1 {
            let count = n.children.len();
            if count > 0 && kind_is(&n.children[count - 1], "end") {
                spans.push((n.start_row, n.end_row));
            }
        }
    }
    assert(spans@ =~= start + own_span(*n, ph));
    let child_ph = if !is_phantom && block {
        Some(kind)
    } else {
        phantom
    };
    assert(opt_view(child_ph) == child_phantom(*n, ph));
    let ghost mid = spans@;
    let mut i: usize = 0;
    assert(n.children@.skip(0) =~= n.children@);
    while i < n.children.len()
        invariant
            i <= n.children@.len(),
            spans@ + block_spans_in(n.children@.skip(i as int), opt_view(child_ph)) == mid
                + block_spans_in(n.children@, opt_view(child_ph)),
        decreases n.children@.len() - i,
    {
        let ghost before = spans@;
        proof {
            assert(n.children@.skip(i as int)[0] == n.children@[i as int]);
            assert(n.children@.skip(i as int).drop_first() =~= n.children@.skip(i + 1));
        }
        collect_block_lines(&n.children[i], spans, child_ph);
        proof {
            let a = block_spans(n.children@[i as int], opt_view(child_ph));
            let b = block_spans_in(n.children@.skip(i + 1), opt_view(child_ph));
            assert(before + (a + b) =~= (before + a) + b);
        }
        i = i + 1;
    }
    assert(n.children@.skip(i as int) =~= Seq::<SyntaxNode>::empty());
    assert(spans@ + Seq::<(usize, usize)>::empty() =~= spans@);
    assert(spans@ =~= start + block_spans(*n, ph));
}

fn is_block_kind_exec(k: &str) -> (r: bool)
    ensures
        r == is_block_kind(k@),
{
    str_eq(k, "moduleDef") || str_eq(k, "interfaceDecl") || str_eq(k, "interfaceExpr") || str_eq(
        k,
        "methodDef",
    ) || str_eq(k, "functionDef") || str_eq(k, "rule") || str_eq(k, "typeclassDef") || str_eq(
        k,
        "typeclassInstanceDef",
    ) || str_eq(k, "externModuleImport") || str_eq(k, "actionBlock") || str_eq(
        k,
        "actionValueBlock",
    ) || str_eq(k, "seqFsmStmt") || str_eq(k, "parFsmStmt") || str_eq(k, "beginEndExpr")
        || str_eq(k, "subinterfaceDef") || str_eq(k, "typedefStruct") || str_eq(k, "typedefEnum")
        || str_eq(k, "typedefTaggedUnion") || str_eq(k, "rulesExpr")
}

fn is_wrapper_kind_exec(k: &str) -> (r: bool)
    ensures
        r == is_wrapper_kind(k@),
{
    str_eq(k, "actionStmt") || str_eq(k, "expressionStmt") || str_eq(k, "actionValueStmt")
        || str_eq(k, "functionBodyStmt")
}

proof fn lemma_counts_bounded(spans: Seq<(usize, usize)>, line: int)
    ensures
        0 <= opening_count(spans, line) <= spans.len(),
        0 <= closing_count(spans, line) <= spans.len(),
    decreases spans.len(),
{
    if spans.len() > 0 {
        lemma_counts_bounded(spans.drop_last(), line);
    }
}

proof fn lemma_last_row_bound(spans: Seq<(usize, usize)>)
    ensures
        0 <= last_block_row(spans) <= usize::MAX,
    decreases spans.len(),
{
    if spans.len() > 0 {
        lemma_last_row_bound(spans.drop_last());
    }
}

/// The indent level of each of the first `nlines` lines.
fn compute_indent_map(tree: &SyntaxNode, nlines: usize) -> (r: Vec<usize>)
    ensures
        usize_seq(r@) == indent_levels(block_spans(*tree, None), nlines as int),
{
    let mut spans: Vec<(usize, usize)> = Vec::new();
    collect_block_lines(tree, &mut spans, None);
    assert(spans@ =~= block_spans(*tree, opt_view(None)));
    let ghost sp = spans@;
    // The count of blocks opening and closing on each line, and the last row.
    let mut opening: Vec<usize> = Vec::new();
    let mut closing: Vec<usize> = Vec::new();
    let mut l: usize = 0;
    while l < nlines
        invariant
            l <= nlines,
            opening@.len() == l,
            closing@.len() == l,
            forall|k: int| 0 <= k < l ==> opening@[k] == 0 && closing@[k] == 0,
        decreases nlines - l,
    {
        opening.push(0);
        closing.push(0);
        l = l + 1;
    }
    let mut last_row: usize = 0;
    let mut i: usize = 0;
    assert(sp.take(0) =~= Seq::<(usize, usize)>::empty());
    while i < spans.len()
        invariant
            sp == spans@,
            i <= sp.len(),
            opening@.len() == nlines,
            closing@.len() == nlines,
            last_row as int == last_block_row(sp.take(i as int)),
            forall|k: int|
                #![trigger opening@[k]]
                0 <= k < nlines ==> opening@[k] as int == opening_count(sp.take(i as int), k),
            forall|k: int|
                #![trigger closing@[k]]
                0 <= k < nlines ==> closing@[k] as int == closing_count(sp.take(i as int), k),
        decreases sp.len() - i,
    {
        let (s, e) = spans[i];
        proof {
            assert(sp.take(i + 1).drop_last() =~= sp.take(i as int));
            assert(sp.take(i + 1).last() == sp[i as int]);
            lemma_counts_bounded(sp.take(i as int), s as int);
            lemma_counts_bounded(sp.take(i as int), e as int);
        }
        if s < nlines {
            let v = opening[s];
            opening.set(s, v + 1);
        }
        if e < nlines {
            let v = closing[e];
            closing.set(e, v + 1);
        }
        let a = if s >= e {
            s
        } else {
            e
        };
        if a >= last_row {
            last_row = a;
        }
        i = i + 1;
    }
    assert(sp.take(sp.len() as int) =~= sp);
    let mut levels: Vec<usize> = Vec::new();
    let mut depth: usize = 0;
    let mut l: usize = 0;
    while l < nlines
        invariant
            sp == spans@,
            l <= nlines,
            opening@.len() == nlines,
            closing@.len() == nlines,
            last_row as int == last_block_row(sp),
            forall|k: int|
                #![trigger opening@[k]]
                0 <= k < nlines ==> opening@[k] as int == opening_count(sp, k),
            forall|k: int|
                #![trigger closing@[k]]
                0 <= k < nlines ==> closing@[k] as int == closing_count(sp, k),
            depth as int == depth_before(sp, l as int),
            levels@.len() == l,
            forall|k: int|
                #![trigger levels@[k]]
                0 <= k < l ==> levels@[k] as int == indent_level(sp, k),
        decreases nlines - l,
    {
        let c = closing[l];
        let o = opening[l];
        let level = depth.saturating_sub(c);
        if l <= last_row {
            levels.push(level);
        } else {
            levels.push(0);
        }
        depth = level.saturating_add(o);
        l = l + 1;
    }
    assert(usize_seq(levels@) =~= indent_levels(sp, nlines as int));
    levels
}

/// `s` without its leading backticks.
pub open spec fn strip_backticks(s: Seq<char>) -> Seq<char>
    decreases s.len(),
{
    if s.len() > 0 && s[0] == '`' {
        strip_backticks(s.drop_first())
    } else {
        s
    }
}

/// The length of the run of non-white-space characters that starts `t`.
pub open spec fn word_end(t: Seq<char>) -> int
    decreases t.len(),
{
    if t.len() == 0 || is_ws(t[0]) {
        0
    } else {
        1 + word_end(t.drop_first())
    }
}

/// The first white-space separated word of `s`, or nothing.
pub open spec fn first_word(s: Seq<char>) -> Seq<char> {
    let t = trim_start(s);
    t.take(word_end(t))
}

/// The directive of a preprocessor line: the first word after the leading
/// backticks of the trimmed line.
pub open spec fn directive_of(line: Seq<char>) -> Seq<char> {
    first_word(strip_backticks(trim(line)))
}

/// The levels with one level taken from each line from `from` up to (not
/// including) `to` that is not a preprocessor line.
pub open spec fn dedent(ls: Seq<Seq<char>>, levels: Seq<int>, from: int, to: int) -> Seq<int> {
    Seq::new(
        levels.len(),
        |j: int|
            if from <= j < to && j < ls.len() && !starts_with(trim_start(ls[j]), "`"@) {
                minus_sat(levels[j], 1)
            } else {
                levels[j]
            },
    )
}

/// The preprocessor state after line `i`: the open `ifdef`/`ifndef` lines,
/// each with its last `else`/`elsif` line, and the levels so far. An `endif`
/// closes the innermost conditional; when that one had an `else`, the lines
/// between the `else` and the `endif` lose the level that the first branch's
/// unclosed block gave them.
pub open spec fn pp_step(
    ls: Seq<Seq<char>>,
    i: int,
    stack: Seq<(usize, Option<usize>)>,
    levels: Seq<int>,
) -> (Seq<(usize, Option<usize>)>, Seq<int>) {
    let t = trim(ls[i]);
    let d = directive_of(ls[i]);
    if !starts_with(t, "`"@) {
        (stack, levels)
    } else if d == "ifdef"@ || d == "ifndef"@ {
        (stack.push((i as usize, None)), levels)
    } else if d == "elsif"@ || d == "else"@ {
        if stack.len() > 0 {
            (stack.update(stack.len() - 1, (stack.last().0, Some(i as usize))), levels)
        } else {
            (stack, levels)
        }
    } else if d == "endif"@ {
        if stack.len() > 0 {
            match stack.last().1 {
                Some(e) => (stack.drop_last(), dedent(ls, levels, e + 1, i)),
                None => (stack.drop_last(), levels),
            }
        } else {
            (stack, levels)
        }
    } else {
        (stack, levels)
    }
}

/// The preprocessor state after the first `i` lines.
pub open spec fn pp_state(ls: Seq<Seq<char>>, levels: Seq<int>, i: int) -> (
    Seq<(usize, Option<usize>)>,
    Seq<int>,
)
    decreases i,
{
    if i <= 0 {
        (seq![], levels)
    } else {
        let st = pp_state(ls, levels, i - 1);
        pp_step(ls, i - 1, st.0, st.1)
    }
}

/// The indent levels after the corrections for preprocessor conditionals.
pub open spec fn corrected_levels(ls: Seq<Seq<char>>, levels: Seq<int>) -> Seq<int> {
    pp_state(ls, levels, ls.len() as int).1
}

/// The first word after the leading backticks of `t`.
fn directive(t: &[char]) -> (r: Vec<char>)
    ensures
        r@ == first_word(strip_backticks(t@)),
{
    let mut a: usize = 0;
    assert(t@.skip(0) =~= t@);
    while a < t.len() && t[a] == '`'
        invariant
            a <= t@.len(),
            strip_backticks(t@) == strip_backticks(t@.skip(a as int)),
        decreases t@.len() - a,
    {
        assert(t@.skip(a as int).drop_first() =~= t@.skip(a + 1));
        a = a + 1;
    }
    let rest = slice_chars_from(t, a);
    assert(rest@ == strip_backticks(t@));
    let u = crate::text::trim_start_chars(&rest);
    let mut b: usize = 0;
    assert(u@.skip(0) =~= u@);
    while b < u.len() && !crate::text::char_is_whitespace(u[b])
        invariant
            b <= u@.len(),
            word_end(u@) == b + word_end(u@.skip(b as int)),
        decreases u@.len() - b,
    {
        assert(u@.skip(b as int).drop_first() =~= u@.skip(b + 1));
        b = b + 1;
    }
    let w = crate::text::slice_chars(&u, 0, b);
    assert(w@ =~= u@.take(b as int));
    w
}

fn slice_chars_from(t: &[char], a: usize) -> (r: Vec<char>)
    requires
        a <= t@.len(),
    ensures
        r@ == t@.skip(a as int),
{
    let r = crate::text::slice_chars(t, a, t.len());
    assert(r@ =~= t@.skip(a as int));
    r
}

fn is_word(w: &Vec<char>, k: &str) -> (r: bool)
    ensures
        r == (w@ == k@),
{
    let kc = chars_of(k);
    crate::text::chars_eq(w, &kc)
}

/// Takes one level from each line after `else_line` and before `endif_line`
/// that is not a preprocessor line.
fn dedent_branch(ls: &Vec<Vec<char>>, levels: &mut Vec<usize>, else_line: usize, endif_line: usize)
    ensures
        usize_seq(final(levels)@) == dedent(
            lines_view(ls@),
            usize_seq(old(levels)@),
            else_line + 1,
            endif_line as int,
        ),
{
    let ghost lv = lines_view(ls@);
    let ghost start = usize_seq(levels@);
    if else_line == usize::MAX {
        assert(usize_seq(levels@) =~= dedent(lv, start, else_line + 1, endif_line as int));
        return;
    }
    let mut j = else_line + 1;
    assert(usize_seq(levels@) =~= dedent(lv, start, else_line + 1, j as int));
    while j < endif_line && j < ls.len()
        invariant
            lv == lines_view(ls@),
            else_line + 1 <= j,
            j <= endif_line || j == else_line + 1,
            levels@.len() == start.len(),
            usize_seq(levels@) == dedent(lv, start, else_line + 1, j as int),
        decreases endif_line - j,
    {
        let ghost before = usize_seq(levels@);
        let t = crate::text::trim_start_chars(&ls[j]);
        assert(lv[j as int] == ls@[j as int]@);
        let pp = starts_with_str(&t, "`");
        if !pp && j < levels.len() {
            let v = levels[j];
            levels.set(j, v.saturating_sub(1));
        }
        proof {
            let next = dedent(lv, start, else_line + 1, j + 1);
            assert forall|k: int| 0 <= k < levels@.len() implies usize_seq(levels@)[k] == next[k] by {
                if k == j {
                    assert(before[k] == start[k]);
                } else {
                    assert(before[k] == dedent(lv, start, else_line + 1, j as int)[k]);
                }
            }
            assert(usize_seq(levels@) =~= next);
        }
        j = j + 1;
    }
    proof {
        let fin = dedent(lv, start, else_line + 1, endif_line as int);
        let cur = dedent(lv, start, else_line + 1, j as int);
        assert forall|k: int| 0 <= k < levels@.len() implies cur[k] == fin[k] by {}
        assert(usize_seq(levels@) =~= fin);
    }
}

/// Corrects the levels that a split preprocessor conditional put off: the
/// parser sees the `else` branch nested in the first branch's block.
fn correct_preprocessor_indents(ls: &Vec<Vec<char>>, levels: &mut Vec<usize>)
    ensures
        usize_seq(final(levels)@) == corrected_levels(lines_view(ls@), usize_seq(old(levels)@)),
{
    let ghost lv = lines_view(ls@);
    let ghost start = usize_seq(levels@);
    let mut stack: Vec<(usize, Option<usize>)> = Vec::new();
    let mut i: usize = 0;
    while i < ls.len()
        invariant
            lv == lines_view(ls@),
            i <= ls@.len(),
            pp_state(lv, start, i as int) == (stack@, usize_seq(levels@)),
        decreases ls@.len() - i,
    {
        assert(lv[i as int] == ls@[i as int]@);
        let t = trim_chars(&ls[i]);
        if starts_with_str(&t, "`") {
            let d = directive(&t);
            if is_word(&d, "ifdef") || is_word(&d, "ifndef") {
                stack.push((i, None));
            } else if is_word(&d, "elsif") || is_word(&d, "else") {
                let n = stack.len();
                if n > 0 {
                    let top = stack[n - 1].0;
                    stack.set(n - 1, (top, Some(i)));
                }
            } else if is_word(&d, "endif") {
                match stack.pop() {
                    Some((_, Some(e))) => {
                        dedent_branch(ls, levels, e, i);
                    },
                    _ => {},
                }
            }
        }
        i = i + 1;
    }
}

/// `if(` and the like: a keyword directly before `(` (group 1).
pub const KW_PAREN: &'static str = "\\b(if|for|while|case|return|action|endaction|actionvalue|endactionvalue|endtypeclass|endinstance)\\(";

/// A word character directly before `{` (group 1).
pub const STRUCT_BRACE: &'static str = "(\\w)\\{";

/// A lone `=` between two characters (groups 1 and 2) that do not make it
/// part of `==`, `!=`, `<=` or `>=`.
pub const EQ_SIGN: &'static str = "([^!<>=])=([^=])";

/// `<-` with the non-space characters around it (groups 1 and 2).
pub const LEFT_ARROW: &'static str = "(\\S)\\s*<-\\s*(\\S)";

/// `<=` with the non-space characters around it (groups 1 and 2).
pub const LESS_EQUAL: &'static str = "(\\S)\\s*<=\\s*(\\S)";

/// `<` between two words (groups 1 and 2).
pub const LESS_THAN: &'static str = "(\\w+)\\s*<\\s*(\\w+)";

/// A lone `+` with the characters around it (groups 1 and 2).
pub const PLUS_SIGN: &'static str = "([^+])\\+\\s*([^+])";

/// `:` between a word character and a character that is neither white space
/// nor another `:` (groups 1 and 2), so that `::` is left alone.
pub const FIELD_COLON: &'static str = "(\\w):([^\\s:])";

/// `;` directly before a non-space character (group 1).
pub const SEMICOLON: &'static str = ";(\\S)";

/// Two spaces or more.
pub const MULTI_SPACE: &'static str = "[ ]{2,}";

/// One spacing rule: every match of `p` in `s` replaced by `rep`; `s` as it
/// is if `p` does not compile.
pub open spec fn spacing_rule(p: Seq<char>, s: Seq<char>, rep: Seq<char>) -> Seq<char> {
    if regex_compiles(p) {
        regex_replace_all(p, s, rep)
    } else {
        s
    }
}

/// The operator and keyword spacing rules applied in turn to `line`.
pub open spec fn spaced_operators(line: Seq<char>) -> Seq<char> {
    let s1 = spacing_rule(KW_PAREN@, line, "$1 ("@);
    let s2 = spacing_rule(STRUCT_BRACE@, s1, "$1 {"@);
    let s3 = spacing_rule(EQ_SIGN@, s2, "$1 = $2"@);
    let s4 = spacing_rule(LEFT_ARROW@, s3, "$1 <- $2"@);
    let s5 = spacing_rule(LESS_EQUAL@, s4, "$1 <= $2"@);
    let s6 = spacing_rule(LESS_THAN@, s5, "$1 < $2"@);
    let s7 = spacing_rule(PLUS_SIGN@, s6, "$1 + $2"@);
    let s8 = spacing_rule(FIELD_COLON@, s7, "$1: $2"@);
    spacing_rule(SEMICOLON@, s8, "; $1"@)
}

/// A line after the spacing pass: the rules applied, then runs of spaces
/// after the indent collapsed to one.
pub open spec fn spaced(line: Seq<char>) -> Seq<char> {
    let s = spaced_operators(line);
    let t = trim_start(s);
    s.take(s.len() - t.len()) + spacing_rule(MULTI_SPACE@, t, " "@)
}

/// Three spaces per level.
pub open spec fn indent_text(level: int) -> Seq<char> {
    Seq::new((3 * level) as nat, |i: int| ' ')
}

/// The formatting state after line `i`: whether a block comment is open,
/// and the lines so far. Block comment lines and preprocessor lines lose
/// their trailing white space, blank lines become empty, and every other
/// line is its trimmed text, spaced, behind the indent of its level.
pub open spec fn format_step(ls: Seq<Seq<char>>, levels: Seq<int>, i: int, in_block: bool, out: Seq<
    Seq<char>,
>) -> (bool, Seq<Seq<char>>) {
    let line = ls[i];
    let t = trim(line);
    let open = in_block || starts_with(t, "/*"@);
    if open {
        (!contains_seq(t, "*/"@), out.push(trim_end(line)))
    } else if starts_with(t, "`"@) {
        (false, out.push(trim_end(line)))
    } else if t.len() == 0 {
        (false, out.push(seq![]))
    } else {
        let level = if 0 <= i < levels.len() {
            levels[i]
        } else {
            0
        };
        (false, out.push(indent_text(level) + spaced(t)))
    }
}

/// The formatting state after the first `i` lines.
pub open spec fn format_state(ls: Seq<Seq<char>>, levels: Seq<int>, i: int) -> (bool, Seq<
    Seq<char>,
>)
    decreases i,
{
    if i <= 0 {
        (false, seq![])
    } else {
        let st = format_state(ls, levels, i - 1);
        format_step(ls, levels, i - 1, st.0, st.1)
    }
}

/// A line is blank when it is white space only.
pub open spec fn is_blank(l: Seq<char>) -> bool {
    trim(l).len() == 0
}

/// The lines kept when each blank line right after a blank line is dropped,
/// and whether the last line kept is blank.
pub open spec fn collapsed(ls: Seq<Seq<char>>) -> (bool, Seq<Seq<char>>)
    decreases ls.len(),
{
    if ls.len() == 0 {
        (false, seq![])
    } else {
        let st = collapsed(ls.drop_last());
        let b = is_blank(ls.last());
        if b && st.0 {
            st
        } else {
            (b, st.1.push(ls.last()))
        }
    }
}

/// The lines, each followed by `\n`.
pub open spec fn newline_joined(ls: Seq<Seq<char>>) -> Seq<char>
    decreases ls.len(),
{
    if ls.len() == 0 {
        seq![]
    } else {
        newline_joined(ls.drop_last()) + ls.last() + seq!['\n']
    }
}

/// The lines without the blank lines at their end.
pub open spec fn without_trailing_blanks(ls: Seq<Seq<char>>) -> Seq<Seq<char>>
    decreases ls.len(),
{
    if ls.len() > 0 && is_blank(ls.last()) {
        without_trailing_blanks(ls.drop_last())
    } else {
        ls
    }
}

/// The lines of the formatted document: the lines of `source` re-indented by
/// the blocks of `tree` (the parse of its sanitised text), with the
/// preprocessor corrections, spaced, blank runs collapsed, and no blank line
/// at the end.
pub open spec fn kept_lines(source: Seq<char>, tree: SyntaxNode) -> Seq<Seq<char>> {
    let ls = lines_of(source);
    let levels = corrected_levels(ls, indent_levels(block_spans(tree, None), ls.len() as int));
    without_trailing_blanks(collapsed(format_state(ls, levels, ls.len() as int).1).1)
}

/// The formatted document: its lines, each ending in a newline; a lone
/// newline when no line is left.
pub open spec fn formatted(source: Seq<char>, tree: SyntaxNode) -> Seq<char> {
    let kept = kept_lines(source, tree);
    if kept.len() == 0 {
        seq!['\n']
    } else {
        newline_joined(kept)
    }
}

/// Applies one spacing rule.
fn apply_rule(p: &str, s: &str, rep: &str) -> (r: String)
    ensures
        r@ == spacing_rule(p@, s@, rep@),
{
    match replace_all(p, s, rep) {
        Some(t) => t,
        None => String::from_str(s),
    }
}

/// The spacing pass over one line.
fn apply_spacing_rules(line: &str) -> (r: String)
    ensures
        r@ == spaced(line@),
{
    let s1 = apply_rule(KW_PAREN, line, "$1 (");
    let s2 = apply_rule(STRUCT_BRACE, s1.as_str(), "$1 {");
    let s3 = apply_rule(EQ_SIGN, s2.as_str(), "$1 = $2");
    let s4 = apply_rule(LEFT_ARROW, s3.as_str(), "$1 <- $2");
    let s5 = apply_rule(LESS_EQUAL, s4.as_str(), "$1 <= $2");
    let s6 = apply_rule(LESS_THAN, s5.as_str(), "$1 < $2");
    let s7 = apply_rule(PLUS_SIGN, s6.as_str(), "$1 + $2");
    let s8 = apply_rule(FIELD_COLON, s7.as_str(), "$1: $2");
    let s = apply_rule(SEMICOLON, s8.as_str(), "; $1");
    let cs = chars_of(s.as_str());
    let a = crate::text::trim_start_index(&cs);
    let indent = crate::text::slice_chars(&cs, 0, a);
    let rest = s.as_str().substring_char(a, cs.len());
    let collapsed_rest = apply_rule(MULTI_SPACE, rest, " ");
    let mut out = string_of(&indent);
    crate::text::append_str(&mut out, collapsed_rest.as_str());
    proof {
        let t = trim_start(s@);
        assert(t.len() == s@.len() - a);
        assert(indent@ =~= s@.take(s@.len() - t.len()));
        assert(rest@ =~= t);
    }
    out
}

/// `level` indent steps of three spaces.
fn push_indent(out: &mut Vec<char>, level: usize)
    ensures
        final(out)@ == old(out)@ + indent_text(level as int),
{
    let ghost start = out@;
    let mut k: usize = 0;
    while k < level
        invariant
            k <= level,
            out@ == start + indent_text(k as int),
        decreases level - k,
    {
        out.push(' ');
        out.push(' ');
        out.push(' ');
        assert(start + indent_text(k + 1) =~= start + indent_text(k as int) + seq![' ', ' ', ' ']);
        k = k + 1;
    }
}

/// The spaced text of a code line behind the indent of its level.
fn format_code_line(t: &Vec<char>, level: usize) -> (r: Vec<char>)
    ensures
        r@ == indent_text(level as int) + spaced(t@),
{
    let s = string_of(t);
    let sp = apply_spacing_rules(s.as_str());
    let spc = chars_of(sp.as_str());
    let mut buf: Vec<char> = Vec::new();
    push_indent(&mut buf, level);
    push_all(&mut buf, &spc);
    buf
}

/// Keeps at most one blank line of each run.
fn collapse_blank_lines(lines: &Vec<Vec<char>>) -> (r: Vec<Vec<char>>)
    ensures
        lines_view(r@) == collapsed(lines_view(lines@)).1,
{
    let ghost lv = lines_view(lines@);
    let mut out: Vec<Vec<char>> = Vec::new();
    let mut prev_blank = false;
    let mut i: usize = 0;
    assert(lv.take(0) =~= Seq::<Seq<char>>::empty());
    assert(lines_view(out@) =~= Seq::<Seq<char>>::empty());
    while i < lines.len()
        invariant
            lv == lines_view(lines@),
            i <= lines@.len(),
            collapsed(lv.take(i as int)).0 == prev_blank,
            collapsed(lv.take(i as int)).1 == lines_view(out@),
        decreases lines@.len() - i,
    {
        let line = &lines[i];
        proof {
            assert(lv.take(i + 1).drop_last() =~= lv.take(i as int));
            assert(lv.take(i + 1).last() == line@);
        }
        let t = trim_chars(line);
        let blank = t.len() == 0;
        if !(blank && prev_blank) {
            let ghost before = lines_view(out@);
            prev_blank = blank;
            out.push(crate::text::slice_chars(line, 0, line.len()));
            assert(out@.last()@ =~= line@);
            assert(lines_view(out@) =~= before.push(line@));
        }
        i = i + 1;
    }
    assert(lv.take(lines@.len() as int) =~= lv);
    out
}

/// Drops the blank lines at the end.
fn drop_trailing_blank_lines(lines: &mut Vec<Vec<char>>)
    ensures
        lines_view(final(lines)@) == without_trailing_blanks(lines_view(old(lines)@)),
{
    let ghost target = without_trailing_blanks(lines_view(lines@));
    loop
        invariant
            without_trailing_blanks(lines_view(lines@)) == target,
        ensures
            lines_view(lines@) == target,
        decreases lines@.len(),
    {
        let n = lines.len();
        if n == 0 {
            assert(lines_view(lines@) =~= Seq::<Seq<char>>::empty());
            break;
        }
        let t = trim_chars(&lines[n - 1]);
        if t.len() > 0 {
            assert(lines_view(lines@).last() == lines@[n - 1]@);
            break;
        }
        let ghost before = lines_view(lines@);
        lines.pop();
        assert(lines_view(lines@) =~= before.drop_last());
    }
}

/// The lines, each followed by `\n`.
fn join_lines_newline(lines: &Vec<Vec<char>>) -> (r: Vec<char>)
    ensures
        r@ == newline_joined(lines_view(lines@)),
{
    let ghost lv = lines_view(lines@);
    let mut out: Vec<char> = Vec::new();
    let mut i: usize = 0;
    assert(lv.take(0) =~= Seq::<Seq<char>>::empty());
    while i < lines.len()
        invariant
            lv == lines_view(lines@),
            i <= lines@.len(),
            newline_joined(lv.take(i as int)) == out@,
        decreases lines@.len() - i,
    {
        proof {
            assert(lv.take(i + 1).drop_last() =~= lv.take(i as int));
        }
        push_all(&mut out, &lines[i]);
        out.push('\n');
        i = i + 1;
    }
    assert(lv.take(lines@.len() as int) =~= lv);
    out
}

/// The formatted text of `source`, given `tree`, the parse of its
/// sanitised text: every line spaced and re-indented by three spaces per
/// enclosing block, block comments and preprocessor lines only stripped of
/// trailing white space, runs of blank lines collapsed to one, no blank line
/// at the end, and a single final newline.
pub fn format_document(source: &str, tree: &SyntaxNode) -> (r: String)
    ensures
        r@ == formatted(source@, *tree),
{
    let cs = chars_of(source);
    let ls = source_lines(&cs);
    let ghost lv = lines_view(ls@);
    let mut levels = compute_indent_map(tree, ls.len());
    correct_preprocessor_indents(&ls, &mut levels);
    let ghost lev = usize_seq(levels@);
    assert(lev == corrected_levels(
        lv,
        indent_levels(block_spans(*tree, None), lv.len() as int),
    ));
    let mut result: Vec<Vec<char>> = Vec::new();
    let mut in_block = false;
    let mut i: usize = 0;
    while i < ls.len()
        invariant
            lv == lines_view(ls@),
            lev == usize_seq(levels@),
            i <= ls@.len(),
            format_state(lv, lev, i as int) == (in_block, lines_view(result@)),
        decreases ls@.len() - i,
    {
        let line = &ls[i];
        assert(lv[i as int] == line@);
        let t = trim_chars(line);
        let ghost before = lines_view(result@);
        if starts_with_str(&t, "/*") {
            in_block = true;
        }
        if in_block {
            result.push(trim_end_chars(line));
            let close: Vec<char> = chars_of("*/");
            if contains_chars(&t, &close) {
                in_block = false;
            }
        } else if starts_with_str(&t, "`") {
            result.push(trim_end_chars(line));
        } else if t.len() == 0 {
            result.push(Vec::new());
        } else {
            let level = if i < levels.len() {
                levels[i]
            } else {
                0
            };
            result.push(format_code_line(&t, level));
        }
        assert(lines_view(result@) =~= before.push(result@.last()@));
        i = i + 1;
    }
    let mut kept = collapse_blank_lines(&result);
    drop_trailing_blank_lines(&mut kept);
    if kept.len() == 0 {
        proof {
            reveal_strlit("\n");
        }
        return String::from_str("\n");
    }
    let out = join_lines_newline(&kept);
    string_of(&out)
}

/// A line that the parser can read: a preprocessor line (backtick first)
/// becomes a line comment with the same indent.
pub open spec fn sanitized_line(l: Seq<char>) -> Seq<char> {
    let t = trim_start(l);
    if starts_with(t, "`"@) {
        l.take(l.len() - t.len()) + "// preprocessor"@
    } else {
        l
    }
}

/// The document with each preprocessor line made a comment, lines joined
/// by `\n`.
pub open spec fn sanitized(source: Seq<char>) -> Seq<char> {
    crate::text::join_lines(lines_of(source).map_values(|l: Seq<char>| sanitized_line(l)))
}

/// The text to parse for formatting: the parser has no rules for
/// preprocessor lines, so each becomes a comment and the lines keep their
/// numbers.
pub fn sanitize_preprocessor_lines(source: &str) -> (r: String)
    ensures
        r@ == sanitized(source@),
{
    let cs = chars_of(source);
    let ls = source_lines(&cs);
    let ghost lv = lines_view(ls@);
    let ghost target = lv.map_values(|l: Seq<char>| sanitized_line(l));
    let mut out: Vec<char> = Vec::new();
    let mut i: usize = 0;
    assert(target.take(0) =~= Seq::<Seq<char>>::empty());
    while i < ls.len()
        invariant
            lv == lines_view(ls@),
            target == lv.map_values(|l: Seq<char>| sanitized_line(l)),
            i <= ls@.len(),
            out@ == crate::text::join_lines(target.take(i as int)),
        decreases ls@.len() - i,
    {
        let line = &ls[i];
        assert(lv[i as int] == line@);
        let a = crate::text::trim_start_index(line);
        let mut piece: Vec<char> = Vec::new();
        if a < line.len() && line[a] == '`' {
            let indent = crate::text::slice_chars(line, 0, a);
            push_all(&mut piece, &indent);
            crate::text::push_str(&mut piece, "// preprocessor");
            proof {
                let t = trim_start(line@);
                assert(t == line@.skip(a as int));
                assert(t[0] == '`');
                assert(indent@ =~= line@.take(line@.len() - t.len()));
                reveal_strlit("`");
                assert(t.take(1) =~= "`"@);
                assert(starts_with(t, "`"@));
            }
        } else {
            push_all(&mut piece, line);
            proof {
                let t = trim_start(line@);
                reveal_strlit("`");
                assert(t == line@.skip(a as int));
                if starts_with(t, "`"@) {
                    assert(t.take(1)[0] == t[0]);
                    assert("`"@[0] == '`');
                }
            }
        }
        assert(piece@ == sanitized_line(line@));
        assert(target[i as int] == piece@);
        let ghost prev = target.take(i as int);
        if i > 0 {
            out.push('\n');
        }
        push_all(&mut out, &piece);
        proof {
            let next = target.take(i + 1);
            assert(next.drop_last() =~= prev);
            assert(next.last() == piece@);
            if i == 0 {
                assert(next.len() == 1);
                assert(out@ =~= next[0]);
            } else {
                assert(out@ =~= crate::text::join_lines(prev) + seq!['\n'] + piece@);
            }
        }
        i = i + 1;
    }
    assert(target.take(ls@.len() as int) =~= target);
    string_of(&out)
}

proof fn lemma_collapsed_no_blank_pairs(ls: Seq<Seq<char>>)
    ensures
        forall|i: int, j: int|
            #![trigger collapsed(ls).1[i], collapsed(ls).1[j]]
            0 <= i && j == i + 1 && j < collapsed(ls).1.len() ==> !(is_blank(collapsed(ls).1[i])
                && is_blank(collapsed(ls).1[j])),
        collapsed(ls).1.len() > 0 ==> collapsed(ls).0 == is_blank(collapsed(ls).1.last()),
        collapsed(ls).1.len() == 0 ==> !collapsed(ls).0,
    decreases ls.len(),
{
    if ls.len() > 0 {
        lemma_collapsed_no_blank_pairs(ls.drop_last());
        let st = collapsed(ls.drop_last());
        let b = is_blank(ls.last());
        if !(b && st.0) {
            let r = st.1.push(ls.last());
            assert forall|i: int, j: int| #![trigger r[i], r[j]] 0 <= i && j == i + 1 && j < r.len()
                implies !(is_blank(r[i]) && is_blank(r[j])) by {
                assert(r[i] == st.1[i]);
                if j < st.1.len() {
                    assert(r[j] == st.1[j]);
                }
            }
        }
    }
}

/// Formatting never leaves two blank lines in a row.
pub proof fn formatting_keeps_one_blank_line(ls: Seq<Seq<char>>)
    ensures
        forall|i: int, j: int|
            #![trigger collapsed(ls).1[i], collapsed(ls).1[j]]
            0 <= i && j == i + 1 && j < collapsed(ls).1.len() ==> !(is_blank(collapsed(ls).1[i])
                && is_blank(collapsed(ls).1[j])),
{
    lemma_collapsed_no_blank_pairs(ls);
}

proof fn lemma_without_trailing_blanks(ls: Seq<Seq<char>>)
    ensures
        without_trailing_blanks(ls).len() <= ls.len(),
        without_trailing_blanks(ls) =~= ls.take(without_trailing_blanks(ls).len() as int),
        without_trailing_blanks(ls).len() > 0 ==> !is_blank(without_trailing_blanks(ls).last()),
    decreases ls.len(),
{
    if ls.len() > 0 && is_blank(ls.last()) {
        lemma_without_trailing_blanks(ls.drop_last());
    }
}

/// The formatted text always ends with a newline.
pub proof fn formatted_ends_with_newline(source: Seq<char>, tree: SyntaxNode)
    ensures
        formatted(source, tree).len() > 0,
        formatted(source, tree).last() == '\n',
{
}

/// The lines of the formatted text never end in a blank line, so the text
/// ends in a single newline, and never hold two blank lines in a row.
pub proof fn formatted_lines_are_tidy(source: Seq<char>, tree: SyntaxNode)
    ensures
        kept_lines(source, tree).len() > 0 ==> !is_blank(kept_lines(source, tree).last()),
        forall|i: int, j: int|
            #![trigger kept_lines(source, tree)[i], kept_lines(source, tree)[j]]
            0 <= i && j == i + 1 && j < kept_lines(source, tree).len() ==> !(is_blank(
                kept_lines(source, tree)[i],
            ) && is_blank(kept_lines(source, tree)[j])),
{
    let ls = lines_of(source);
    let levels = corrected_levels(ls, indent_levels(block_spans(tree, None), ls.len() as int));
    let c = collapsed(format_state(ls, levels, ls.len() as int).1).1;
    lemma_collapsed_no_blank_pairs(format_state(ls, levels, ls.len() as int).1);
    lemma_without_trailing_blanks(c);
    let k = kept_lines(source, tree);
    assert(k == without_trailing_blanks(c));
    assert forall|i: int, j: int|
        #![trigger k[i], k[j]]
        0 <= i && j == i + 1 && j < k.len() implies !(is_blank(k[i]) && is_blank(k[j])) by {
        assert(k[i] == c[i]);
        assert(k[j] == c[j]);
    }
}

} // verus!
