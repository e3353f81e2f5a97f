//! The concrete syntax tree that the analyses walk, held as plain values.
use vstd::prelude::*;

use crate::position::{Position, Range};
use crate::text::str_eq;

verus! {

/// A node of a concrete syntax tree: its kind, where it starts and ends (zero
/// based rows, and columns counted in bytes of the row), its source text,
/// whether it holds a syntax error, and its children in order.
pub struct SyntaxNode {
    pub kind: String,
    pub start_row: usize,
    pub start_col: usize,
    pub end_row: usize,
    pub end_col: usize,
    pub text: String,
    /// The node is, or contains, an `ERROR` or missing node.
    pub has_error: bool,
    pub children: Vec<SyntaxNode>,
}

/// The node's span as a document range (rows and columns taken as `u32`).
pub open spec fn node_range(n: SyntaxNode) -> Range {
    Range {
        start: Position { line: n.start_row as u32, character: n.start_col as u32 },
        end: Position { line: n.end_row as u32, character: n.end_col as u32 },
    }
}

/// The node's span as a document range.
pub fn node_to_range(n: &SyntaxNode) -> (r: Range)
    ensures
        r == node_range(*n),
{
    Range {
        start: Position { line: n.start_row as u32, character: n.start_col as u32 },
        end: Position { line: n.end_row as u32, character: n.end_col as u32 },
    }
}

/// The first node in pre-order, from `n` down, of kind `k`.
pub open spec fn first_of_kind(n: SyntaxNode, k: Seq<char>) -> Option<SyntaxNode>
    decreases n,
{
    if n.kind@ == k {
        Some(n)
    } else {
        first_of_kind_in(n.children@, k)
    }
}

/// The first node in pre-order, over the trees `s`, of kind `k`.
pub open spec fn first_of_kind_in(s: Seq<SyntaxNode>, k: Seq<char>) -> Option<SyntaxNode>
    decreases s,
{
    if s.len() == 0 {
        None
    } else {
        match first_of_kind(s[0], k) {
            Some(x) => Some(x),
            None => first_of_kind_in(s.drop_first(), k),
        }
    }
}

/// The first child of kind `k`.
pub open spec fn child_of_kind(s: Seq<SyntaxNode>, k: Seq<char>) -> Option<SyntaxNode>
    decreases s.len(),
{
    if s.len() == 0 {
        None
    } else if s[0].kind@ == k {
        Some(s[0])
    } else {
        child_of_kind(s.drop_first(), k)
    }
}

/// Some node from `n` down has kind `k`.
pub open spec fn has_kind(n: SyntaxNode, k: Seq<char>) -> bool {
    first_of_kind(n, k) is Some
}

/// Some node from `n` down is an `identifier` with the text `t`.
pub open spec fn has_identifier_text(n: SyntaxNode, t: Seq<char>) -> bool
    decreases n,
{
    (n.kind@ == "identifier"@ && n.text@ == t) || has_identifier_text_in(n.children@, t)
}

pub open spec fn has_identifier_text_in(s: Seq<SyntaxNode>, t: Seq<char>) -> bool
    decreases s,
{
    s.len() > 0 && (has_identifier_text(s[0], t) || has_identifier_text_in(s.drop_first(), t))
}

/// Whether the node's kind is `k`.
pub fn kind_is(n: &SyntaxNode, k: &str) -> (b: bool)
    ensures
        b == (n.kind@ == k@),
{
    str_eq(n.kind.as_str(), k)
}

/// The first node in pre-order, from `n` down, of kind `k`.
pub fn find_first_of_kind<'a>(n: &'a SyntaxNode, k: &str) -> (r: Option<&'a SyntaxNode>)
    ensures
        r matches Some(x) ==> first_of_kind(*n, k@) == Some(*x),
        r is None ==> first_of_kind(*n, k@) is None,
    decreases n,
{
    if kind_is(n, k) {
        return Some(n);
    }
    let mut i: usize = 0;
    assert(n.children@.skip(0) =~= n.children@);
    while i < n.children.len()
        invariant
            i <= n.children@.len(),
            first_of_kind(*n, k@) == first_of_kind_in(n.children@.skip(i as int), k@),
        decreases n.children@.len() - i,
    {
        let c = &n.children[i];
        proof {
            assert(n.children@.skip(i as int)[0] == n.children@[i as int]);
            assert(n.children@.skip(i as int).drop_first() =~= n.children@.skip(i + 1));
        }
        match find_first_of_kind(c, k) {
            Some(x) => {
                return Some(x);
            },
            None => {},
        }
        i = i + 1;
    }
    None
}

/// The first child of kind `k`.
pub fn find_child_of_kind<'a>(n: &'a SyntaxNode, k: &str) -> (r: Option<&'a SyntaxNode>)
    ensures
        r matches Some(x) ==> child_of_kind(n.children@, k@) == Some(*x),
        r is None ==> child_of_kind(n.children@, k@) is None,
{
    let mut i: usize = 0;
    assert(n.children@.skip(0) =~= n.children@);
    while i < n.children.len()
        invariant
            i <= n.children@.len(),
            child_of_kind(n.children@, k@) == child_of_kind(n.children@.skip(i as int), k@),
        decreases n.children@.len() - i,
    {
        proof {
            assert(n.children@.skip(i as int)[0] == n.children@[i as int]);
            assert(n.children@.skip(i as int).drop_first() =~= n.children@.skip(i + 1));
        }
        if kind_is(&n.children[i], k) {
            return Some(&n.children[i]);
        }
        i = i + 1;
    }
    None
}

/// Whether some node from `n` down is an `identifier` with the text `t`.
pub fn contains_identifier_text(n: &SyntaxNode, t: &str) -> (b: bool)
    ensures
        b == has_identifier_text(*n, t@),
    decreases n,
{
    if kind_is(n, "identifier") && str_eq(n.text.as_str(), t) {
        return true;
    }
    let mut i: usize = 0;
    assert(n.children@.skip(0) =~= n.children@);
    while i < n.children.len()
        invariant
            i <= n.children@.len(),
            has_identifier_text(*n, t@) == ((n.kind@ == "identifier"@ && n.text@ == t@)
                || has_identifier_text_in(n.children@.skip(i as int), t@)),
            !(n.kind@ == "identifier"@ && n.text@ == t@),
        decreases n.children@.len() - i,
    {
        proof {
            assert(n.children@.skip(i as int)[0] == n.children@[i as int]);
            assert(n.children@.skip(i as int).drop_first() =~= n.children@.skip(i + 1));
        }
        if contains_identifier_text(&n.children[i], t) {
            return true;
        }
        i = i + 1;
    }
    false
}

} // verus!
