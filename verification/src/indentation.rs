//! How the formatter's indent follows the blocks of the syntax tree.
use vstd::prelude::*;

use crate::formatter::{
    block_spans, block_spans_in, child_phantom, closing_count, depth_before, indent_level,
    indent_text, last_block_row, opening_count, own_span,
};
use crate::syntax::SyntaxNode;

verus! {

/// The number of blocks of `spans` strictly around line `i`: opened on an
/// earlier line and closed on a later one.
pub open spec fn blocks_around(spans: Seq<(usize, usize)>, i: int) -> int
    decreases spans.len(),
{
    if spans.len() == 0 {
        0
    } else {
        blocks_around(spans.drop_last(), i) + if spans.last().0 < i < spans.last().1 {
            1int
        } else {
            0
        }
    }
}

/// The number of blocks of `spans` open at the start of line `i`: opened on
/// an earlier line, closed on `i` or later.
pub open spec fn blocks_open_at(spans: Seq<(usize, usize)>, i: int) -> int
    decreases spans.len(),
{
    if spans.len() == 0 {
        0
    } else {
        blocks_open_at(spans.drop_last(), i) + if spans.last().0 < i <= spans.last().1 {
            1int
        } else {
            0
        }
    }
}

/// Every block closes on a line after the one it opens on.
pub open spec fn spans_proper(spans: Seq<(usize, usize)>) -> bool {
    forall|k: int| 0 <= k < spans.len() ==> (#[trigger] spans[k]).0 < spans[k].1
}

proof fn lemma_counts(spans: Seq<(usize, usize)>, i: int)
    requires
        spans_proper(spans),
    ensures
        blocks_open_at(spans, i + 1) == blocks_open_at(spans, i) - closing_count(spans, i)
            + opening_count(spans, i),
        blocks_around(spans, i) == blocks_open_at(spans, i) - closing_count(spans, i),
        0 <= blocks_around(spans, i),
        0 <= opening_count(spans, i),
        blocks_open_at(spans, i) <= spans.len(),
        blocks_around(spans, i) + opening_count(spans, i) <= spans.len(),
        last_block_row(spans) < i ==> blocks_around(spans, i) == 0 && closing_count(spans, i)
            == 0,
        forall|k: int| 0 <= k < spans.len() ==> (#[trigger] spans[k]).1 <= last_block_row(spans),
    decreases spans.len(),
{
    if spans.len() > 0 {
        let d = spans.drop_last();
        assert(spans_proper(d)) by {
            assert forall|k: int| 0 <= k < d.len() implies (#[trigger] d[k]).0 < d[k].1 by {
                assert(d[k] == spans[k]);
            }
        }
        lemma_counts(d, i);
        assert(spans[spans.len() - 1] == spans.last());
        assert forall|k: int| 0 <= k < spans.len() implies (#[trigger] spans[k]).1
            <= last_block_row(spans) by {
            if k < d.len() {
                assert(spans[k] == d[k]);
            }
        }
    }
}

proof fn lemma_depth_counts(spans: Seq<(usize, usize)>, i: int)
    requires
        spans_proper(spans),
        spans.len() <= usize::MAX,
        0 <= i,
    ensures
        depth_before(spans, i) == blocks_open_at(spans, i),
    decreases i,
{
    if i > 0 {
        lemma_depth_counts(spans, i - 1);
        lemma_counts(spans, i - 1);
    } else {
        lemma_open_at_zero(spans);
    }
}

proof fn lemma_open_at_zero(spans: Seq<(usize, usize)>)
    ensures
        blocks_open_at(spans, 0) == 0,
    decreases spans.len(),
{
    if spans.len() > 0 {
        lemma_open_at_zero(spans.drop_last());
    }
}

/// The indent level of a line is the number of blocks strictly around it.
pub proof fn indent_counts_enclosing_blocks(spans: Seq<(usize, usize)>, i: int)
    requires
        spans_proper(spans),
        spans.len() <= usize::MAX,
        0 <= i,
    ensures
        indent_level(spans, i) == blocks_around(spans, i),
{
    lemma_depth_counts(spans, i);
    lemma_counts(spans, i);
}

/// The kinds of node whose inner lines are indented one level more than the
/// node: modules, interfaces and interface expressions, methods, functions,
/// rules, typeclasses and their instances, imported modules, action blocks,
/// FSM blocks, begin/end blocks, subinterfaces, struct, enum and tagged
/// union typedefs, and rules expressions.
pub open spec fn indents_as_block(k: Seq<char>) -> bool {
    k == "moduleDef"@ || k == "interfaceDecl"@ || k == "interfaceExpr"@ || k == "methodDef"@ || k
        == "functionDef"@ || k == "rule"@ || k == "typeclassDef"@ || k == "typeclassInstanceDef"@
        || k == "externModuleImport"@ || k == "actionBlock"@ || k == "actionValueBlock"@ || k
        == "seqFsmStmt"@ || k == "parFsmStmt"@ || k == "beginEndExpr"@ || k == "subinterfaceDef"@
        || k == "typedefStruct"@ || k == "typedefEnum"@ || k == "typedefTaggedUnion"@ || k
        == "rulesExpr"@
}

/// The nodes of the tree `n`, in pre-order, each with the kinds of its
/// ancestors (`anc` for `n` itself), outermost first.
pub open spec fn nodes_with_ancestors(n: SyntaxNode, anc: Seq<Seq<char>>) -> Seq<
    (SyntaxNode, Seq<Seq<char>>),
>
    decreases n,
{
    seq![(n, anc)] + nodes_with_ancestors_in(n.children@, anc.push(n.kind@))
}

pub open spec fn nodes_with_ancestors_in(s: Seq<SyntaxNode>, anc: Seq<Seq<char>>) -> Seq<
    (SyntaxNode, Seq<Seq<char>>),
>
    decreases s,
{
    if s.len() == 0 {
        seq![]
    } else {
        nodes_with_ancestors(s[0], anc) + nodes_with_ancestors_in(s.drop_first(), anc)
    }
}

/// The node `e.0` is of a block kind, spans two rows or more, and has no
/// ancestor of its own kind.
pub open spec fn outermost_block(e: (SyntaxNode, Seq<Seq<char>>)) -> bool {
    &&& indents_as_block(e.0.kind@)
    &&& e.0.end_row > e.0.start_row
    &&& !e.1.contains(e.0.kind@)
}

/// Every node `e` of `c` that is an outermost block has its rows among `spans`.
pub open spec fn blocks_listed(c: Seq<(SyntaxNode, Seq<Seq<char>>)>, spans: Seq<(usize, usize)>) -> bool {
    forall|j: int|
        0 <= j < c.len() && outermost_block(#[trigger] c[j]) ==> spans.contains(
            (c[j].0.start_row, c[j].0.end_row),
        )
}

proof fn lemma_contains_concat(a: Seq<(usize, usize)>, b: Seq<(usize, usize)>, x: (usize, usize))
    requires
        a.contains(x) || b.contains(x),
    ensures
        (a + b).contains(x),
{
    if a.contains(x) {
        let k = choose|k: int| 0 <= k < a.len() && a[k] == x;
        assert((a + b)[k] == x);
    } else {
        let k = choose|k: int| 0 <= k < b.len() && b[k] == x;
        assert((a + b)[a.len() + k] == x);
    }
}

proof fn lemma_blocks_listed(n: SyntaxNode, phantom: Option<Seq<char>>, anc: Seq<Seq<char>>)
    requires
        phantom matches Some(k) ==> anc.contains(k),
    ensures
        blocks_listed(nodes_with_ancestors(n, anc), block_spans(n, phantom)),
        spans_proper(block_spans(n, phantom)),
    decreases n,
{
    let cp = child_phantom(n, phantom);
    let anc2 = anc.push(n.kind@);
    assert(cp matches Some(k) ==> anc2.contains(k)) by {
        if cp == Some(n.kind@) {
            assert(anc2[anc.len() as int] == n.kind@);
        } else if phantom is Some {
            let k = phantom->0;
            let m = choose|m: int| 0 <= m < anc.len() && anc[m] == k;
            assert(anc2[m] == k);
        }
    }
    lemma_blocks_listed_in(n.children@, cp, anc2);
    let own = own_span(n, phantom);
    let rest = block_spans_in(n.children@, cp);
    let head: Seq<(SyntaxNode, Seq<Seq<char>>)> = seq![(n, anc)];
    let inner = nodes_with_ancestors_in(n.children@, anc2);
    let c = nodes_with_ancestors(n, anc);
    assert(c == head + inner);
    assert(block_spans(n, phantom) == own + rest);
    assert forall|j: int| 0 <= j < c.len() && outermost_block(#[trigger] c[j]) implies (own
        + rest).contains((c[j].0.start_row, c[j].0.end_row)) by {
        let x = (c[j].0.start_row, c[j].0.end_row);
        if j == 0 {
            assert(c[0] == (n, anc));
            assert(phantom != Some(n.kind@));
            assert(own == seq![x]);
            assert(own[0] == x);
        } else {
            assert(c[j] == inner[j - 1]);
            assert(rest.contains(x));
        }
        lemma_contains_concat(own, rest, x);
    }
    assert forall|k: int| 0 <= k < (own + rest).len() implies (#[trigger] (own + rest)[k]).0 < (
    own + rest)[k].1 by {
        if k < own.len() {
            assert((own + rest)[k] == own[k]);
        } else {
            assert((own + rest)[k] == rest[k - own.len()]);
        }
    }
}

proof fn lemma_blocks_listed_in(s: Seq<SyntaxNode>, phantom: Option<Seq<char>>, anc: Seq<Seq<char>>)
    requires
        phantom matches Some(k) ==> anc.contains(k),
    ensures
        blocks_listed(nodes_with_ancestors_in(s, anc), block_spans_in(s, phantom)),
        spans_proper(block_spans_in(s, phantom)),
    decreases s,
{
    if s.len() > 0 {
        lemma_blocks_listed(s[0], phantom, anc);
        lemma_blocks_listed_in(s.drop_first(), phantom, anc);
        let a = nodes_with_ancestors(s[0], anc);
        let b = nodes_with_ancestors_in(s.drop_first(), anc);
        let fa = block_spans(s[0], phantom);
        let fb = block_spans_in(s.drop_first(), phantom);
        assert(nodes_with_ancestors_in(s, anc) == a + b);
        assert(block_spans_in(s, phantom) == fa + fb);
        assert forall|j: int| 0 <= j < (a + b).len() && outermost_block(#[trigger] (a + b)[j]) implies (
        fa + fb).contains(((a + b)[j].0.start_row, (a + b)[j].0.end_row)) by {
            if j < a.len() {
                assert((a + b)[j] == a[j]);
            } else {
                assert((a + b)[j] == b[j - a.len()]);
            }
            lemma_contains_concat(fa, fb, ((a + b)[j].0.start_row, (a + b)[j].0.end_row));
        }
        assert forall|k: int| 0 <= k < (fa + fb).len() implies (#[trigger] (fa + fb)[k]).0 < (fa
            + fb)[k].1 by {
            if k < fa.len() {
                assert((fa + fb)[k] == fa[k]);
            } else {
                assert((fa + fb)[k] == fb[k - fa.len()]);
            }
        }
    } else {
        assert(nodes_with_ancestors_in(s, anc).len() == 0);
        assert(block_spans_in(s, phantom).len() == 0);
    }
}

proof fn lemma_around_counts_member(spans: Seq<(usize, usize)>, x: (usize, usize), i: int)
    requires
        spans.contains(x),
        x.0 < i < x.1,
    ensures
        blocks_around(spans, i) >= 1,
    decreases spans.len(),
{
    let d = spans.drop_last();
    lemma_around_nonneg(d, i);
    if spans.last() != x {
        let k = choose|k: int| 0 <= k < spans.len() && spans[k] == x;
        assert(d[k] == x);
        lemma_around_counts_member(d, x, i);
    }
}

proof fn lemma_around_nonneg(spans: Seq<(usize, usize)>, i: int)
    ensures
        blocks_around(spans, i) >= 0,
    decreases spans.len(),
{
    if spans.len() > 0 {
        lemma_around_nonneg(spans.drop_last(), i);
    }
}

/// Every line strictly inside a node of a block kind (see
/// `indents_as_block`) that spans two rows or more and has no ancestor of
/// its own kind is indented: its level is the number of blocks strictly
/// around it, and that node's rows are one of those blocks.
pub proof fn block_interiors_are_indented(tree: SyntaxNode, j: int, i: int)
    requires
        block_spans(tree, None).len() <= usize::MAX,
        0 <= j < nodes_with_ancestors(tree, seq![]).len(),
        outermost_block(nodes_with_ancestors(tree, seq![])[j]),
        nodes_with_ancestors(tree, seq![])[j].0.start_row < i < nodes_with_ancestors(
            tree,
            seq![],
        )[j].0.end_row,
    ensures
        block_spans(tree, None).contains(
            (
                nodes_with_ancestors(tree, seq![])[j].0.start_row,
                nodes_with_ancestors(tree, seq![])[j].0.end_row,
            ),
        ),
        indent_level(block_spans(tree, None), i) == blocks_around(block_spans(tree, None), i),
        indent_level(block_spans(tree, None), i) >= 1,
{
    let spans = block_spans(tree, None);
    let m = nodes_with_ancestors(tree, seq![])[j].0;
    lemma_blocks_listed(tree, None, seq![]);
    indent_counts_enclosing_blocks(spans, i);
    lemma_around_counts_member(spans, (m.start_row, m.end_row), i);
}

/// One indent level is three spaces: the indent of a line at level `level`
/// is `3 * level` spaces and nothing else.
pub proof fn indent_is_three_spaces_per_level(level: nat)
    ensures
        indent_text(level as int).len() == 3 * level,
        forall|c: int| 0 <= c < 3 * level ==> #[trigger] indent_text(level as int)[c] == ' ',
{
}

} // verus!
