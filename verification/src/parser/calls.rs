//! The function or method call around a cursor, for signature help.
use vstd::prelude::*;
use vstd::string::StringSliceAdditionalSpecFns;
use vstd::utf8::{decode_utf8, encode_utf8, encode_utf8_decode_utf8, is_char_boundary};

use crate::constant_expansion::parser::str_get;
use crate::parser::folding::{lines_view, source_lines};
use crate::position::Position;
use crate::syntax::{first_of_kind, find_first_of_kind, kind_is, SyntaxNode};
use crate::text::{
    chars_of, first_index_exec, first_index_of, lines_of, slice_chars, starts_with, starts_with_str,
    string_of, trim, trim_chars,
};

verus! {

/// The call a cursor is in: the callable's name and the 0-based index of the
/// argument the cursor is on.
#[derive(Debug, Clone)]
pub struct CallContext {
    pub callable_name: String,
    pub argument_index: usize,
}

/// `(r1, c1)` comes no later than `(r2, c2)`.
pub open spec fn point_le(r1: int, c1: int, r2: int, c2: int) -> bool {
    r1 < r2 || (r1 == r2 && c1 <= c2)
}

/// The index of the first of `s` that ends after the point, or `s.len()`.
pub open spec fn index_ending_after(s: Seq<SyntaxNode>, row: int, col: int) -> int
    decreases s.len(),
{
    if s.len() == 0 {
        0
    } else if point_le(s[0].end_row as int, s[0].end_col as int, row, col) {
        1 + index_ending_after(s.drop_first(), row, col)
    } else {
        0
    }
}

/// The nodes from `n` down to the smallest node that holds the point, as
/// tree-sitter's `descendant_for_point_range` descends: into the first child
/// that ends after the point, while that child starts at or before it.
pub open spec fn descent(n: SyntaxNode, row: int, col: int) -> Seq<SyntaxNode>
    decreases n,
{
    let i = index_ending_after(n.children@, row, col);
    if 0 <= i < n.children@.len() && point_le(
        n.children@[i].start_row as int,
        n.children@[i].start_col as int,
        row,
        col,
    ) {
        seq![n] + descent(n.children@[i], row, col)
    } else {
        seq![n]
    }
}

pub open spec fn is_call_kind(k: Seq<char>) -> bool {
    k == "functionCall"@ || k == "methodCall"@
}

/// The last call node of a path: the innermost call around the point.
pub open spec fn last_call(path: Seq<SyntaxNode>) -> Option<SyntaxNode>
    decreases path.len(),
{
    if path.len() == 0 {
        None
    } else if is_call_kind(path.last().kind@) {
        Some(path.last())
    } else {
        last_call(path.drop_last())
    }
}

/// The name of the function a `functionCall` calls: the trimmed text of its
/// first callee expression that does not start with `(` or `"`, or else the
/// first identifier in it.
pub open spec fn function_call_name(s: Seq<SyntaxNode>) -> Option<Seq<char>>
    decreases s.len(),
{
    if s.len() == 0 {
        None
    } else if s[0].kind@ == "exprPrimary"@ {
        let t = trim(s[0].text@);
        if t.len() > 0 && !starts_with(t, "("@) && !starts_with(t, "\""@) {
            Some(t)
        } else {
            match first_of_kind(s[0], "identifier"@) {
                Some(id) => Some(id.text@),
                None => function_call_name(s.drop_first()),
            }
        }
    } else {
        function_call_name(s.drop_first())
    }
}

/// The name of the method a `methodCall` calls: the identifier after `.`.
pub open spec fn method_call_name(s: Seq<SyntaxNode>, found_dot: bool) -> Option<Seq<char>>
    decreases s.len(),
{
    if s.len() == 0 {
        None
    } else if s[0].kind@ == "."@ {
        method_call_name(s.drop_first(), true)
    } else if found_dot && s[0].kind@ == "identifier"@ {
        Some(s[0].text@)
    } else {
        method_call_name(s.drop_first(), found_dot)
    }
}

/// The bracket depth and comma count after the characters `s`: commas count
/// only outside `()`, `{}` and `[]`.
pub open spec fn comma_state(s: Seq<char>) -> (int, int) {
    comma_run((0, 0), s)
}

/// An opening bracket.
pub open spec fn is_opener(c: char) -> bool {
    c == '(' || c == '{' || c == '['
}

/// A closing bracket.
pub open spec fn is_closer(c: char) -> bool {
    c == ')' || c == '}' || c == ']'
}

/// One character's effect on the bracket depth and comma count: an opener
/// goes one level in, a closer one level out (never below the top level),
/// and a comma at the top level counts.
pub open spec fn comma_step(st: (int, int), c: char) -> (int, int) {
    if is_opener(c) {
        (st.0 + 1, st.1)
    } else if is_closer(c) && st.0 > 0 {
        (st.0 - 1, st.1)
    } else if c == ',' && st.0 == 0 {
        (st.0, st.1 + 1)
    } else {
        st
    }
}

/// The bracket depth and comma count after reading `s` from `st`.
pub open spec fn comma_run(st: (int, int), s: Seq<char>) -> (int, int)
    decreases s.len(),
{
    if s.len() == 0 {
        st
    } else {
        comma_step(comma_run(st, s.drop_last()), s.last())
    }
}

/// The number of commas in `s` outside nested brackets.
pub open spec fn top_level_commas(s: Seq<char>) -> int {
    comma_state(s).1
}

/// The lines `k` up to (not including) `to`, each followed by `\n`.
pub open spec fn middle_lines(ls: Seq<Seq<char>>, k: int, to: int) -> Seq<char>
    decreases to - k,
{
    if k >= to {
        seq![]
    } else {
        (if 0 <= k < ls.len() {
            ls[k] + seq!['\n']
        } else {
            seq![]
        }) + middle_lines(ls, k + 1, to)
    }
}

/// The byte offset of the first `(` in `text`.
pub open spec fn paren_offset(text: Seq<char>) -> int {
    encode_utf8(text.take(first_index_of(text, '('))).len() as int
}

/// The end of the last line's part: the cursor's column, or the line's end.
pub open spec fn last_cut(b: Seq<u8>, cc: int) -> int {
    if cc <= b.len() {
        cc
    } else {
        b.len() as int
    }
}

/// The argument text of a call that starts at line `sl`, column `sc` and
/// spans lines: its first line's bytes after its `(` (at the offset `open`
/// within the call's text), the lines between, and its cursor line up to the
/// cursor's column (columns in bytes).
pub open spec fn multi_line_args(
    ls: Seq<Seq<char>>,
    sl: int,
    sc: int,
    cl: int,
    cc: int,
    open: int,
) -> Seq<char> {
    let first = if 0 <= sl < ls.len() {
        let b = encode_utf8(ls[sl]);
        (if sc + open + 1 < b.len() {
            decode_utf8(b.subrange(sc + open + 1, b.len() as int))
        } else {
            seq![]
        }) + seq!['\n']
    } else {
        seq![]
    };
    let last = if 0 <= cl < ls.len() {
        let b = encode_utf8(ls[cl]);
        decode_utf8(b.subrange(0, last_cut(b, cc)))
    } else {
        seq![]
    };
    first + middle_lines(ls, sl + 1, cl) + last
}

/// The first and last lines of a multi-line argument text can be cut where
/// the text takes them: at character boundaries.
pub open spec fn multi_line_cuttable(
    ls: Seq<Seq<char>>,
    sl: int,
    sc: int,
    cl: int,
    cc: int,
    open: int,
) -> bool {
    &&& (0 <= sl < ls.len() && sc + open + 1 < encode_utf8(ls[sl]).len() ==> is_char_boundary(
        encode_utf8(ls[sl]),
        sc + open + 1,
    ))
    &&& (0 <= cl < ls.len() ==> is_char_boundary(
        encode_utf8(ls[cl]),
        last_cut(encode_utf8(ls[cl]), cc),
    ))
}

/// The index of the argument the cursor is on within the call `n`: the
/// commas outside nested brackets between the call's `(` and the cursor,
/// with columns counted in bytes.
pub open spec fn argument_index(n: SyntaxNode, source: Seq<char>, pos: Position) -> int {
    let text = n.text@;
    let b = encode_utf8(text);
    let open = paren_offset(text);
    let cl = pos.line as int;
    let cc = pos.character as int;
    let sl = n.start_row as int;
    let sc = n.start_col as int;
    if first_index_of(text, '(') >= text.len() {
        0
    } else if cl == sl {
        if cc > sc + open + 1 {
            top_level_commas(decode_utf8(b.subrange(open + 1, cc - sc)))
        } else {
            0
        }
    } else {
        top_level_commas(multi_line_args(lines_of(source), sl, sc, cl, cc, open))
    }
}

/// The argument index can be computed: the text between `(` and the cursor
/// lies within the call's text and is cut at character boundaries.
pub open spec fn arguments_countable(n: SyntaxNode, source: Seq<char>, pos: Position) -> bool {
    let text = n.text@;
    let b = encode_utf8(text);
    let open = paren_offset(text);
    let cl = pos.line as int;
    let cc = pos.character as int;
    let sl = n.start_row as int;
    let sc = n.start_col as int;
    first_index_of(text, '(') < text.len() ==> if cl == sl {
        cc > sc + open + 1 ==> cc - sc <= b.len() && is_char_boundary(b, open + 1)
            && is_char_boundary(b, cc - sc)
    } else {
        multi_line_cuttable(lines_of(source), sl, sc, cl, cc, open)
    }
}

/// The callable's name of a call node.
pub open spec fn call_name(n: SyntaxNode) -> Option<Seq<char>> {
    if n.kind@ == "functionCall"@ {
        function_call_name(n.children@)
    } else if n.kind@ == "methodCall"@ {
        method_call_name(n.children@, false)
    } else {
        None
    }
}

/// The call around a position: the innermost `functionCall` or `methodCall`
/// that holds it, its callable's name, and the argument index.
pub open spec fn call_context_at(tree: SyntaxNode, source: Seq<char>, pos: Position) -> Option<
    (Seq<char>, int),
> {
    match last_call(descent(tree, pos.line as int, pos.character as int)) {
        Some(c) => match call_name(c) {
            Some(name) => Some((name, argument_index(c, source, pos))),
            None => None,
        },
        None => None,
    }
}

/// The call around a position, if any, can be measured.
pub open spec fn call_context_defined(tree: SyntaxNode, source: Seq<char>, pos: Position) -> bool {
    match last_call(descent(tree, pos.line as int, pos.character as int)) {
        Some(c) => arguments_countable(c, source, pos),
        None => true,
    }
}

/// The number of commas in `text` outside nested `()`, `{}` and `[]`.
pub fn count_top_level_commas(text: &str) -> (r: usize)
    ensures
        r as int == top_level_commas(text@),
{
    let cs = chars_of(text);
    count_commas(&cs)
}

fn count_commas(cs: &[char]) -> (r: usize)
    ensures
        r as int == top_level_commas(cs@),
{
    let mut depth: usize = 0;
    let mut count: usize = 0;
    let mut i: usize = 0;
    assert(cs@.take(0) =~= Seq::<char>::empty());
    while i < cs.len()
        invariant
            i <= cs@.len(),
            depth <= i,
            count <= i,
            comma_state(cs@.take(i as int)) == (depth as int, count as int),
        decreases cs@.len() - i,
    {
        proof {
            assert(cs@.take(i + 1).drop_last() =~= cs@.take(i as int));
            assert(cs@.take(i + 1).last() == cs@[i as int]);
        }
        let c = cs[i];
        if c == '(' || c == '{' || c == '[' {
            depth = depth + 1;
        } else if (c == ')' || c == '}' || c == ']') && depth > 0 {
            depth = depth - 1;
        } else if c == ',' && depth == 0 {
            count = count + 1;
        }
        i = i + 1;
    }
    assert(cs@.take(cs@.len() as int) =~= cs@);
    count
}

/// The name of the function a `functionCall` node calls.
fn get_function_call_name(n: &SyntaxNode) -> (r: Option<Vec<char>>)
    ensures
        r matches Some(x) ==> function_call_name(n.children@) == Some(x@),
        r is None ==> function_call_name(n.children@) is None,
{
    let mut i: usize = 0;
    assert(n.children@.skip(0) =~= n.children@);
    while i < n.children.len()
        invariant
            i <= n.children@.len(),
            function_call_name(n.children@) == function_call_name(n.children@.skip(i as int)),
        decreases n.children@.len() - i,
    {
        proof {
            assert(n.children@.skip(i as int)[0] == n.children@[i as int]);
            assert(n.children@.skip(i as int).drop_first() =~= n.children@.skip(i + 1));
        }
        let c = &n.children[i];
        if kind_is(c, "exprPrimary") {
            let t = trim_chars(&chars_of(c.text.as_str()));
            if t.len() > 0 && !starts_with_str(&t, "(") && !starts_with_str(&t, "\"") {
                return Some(t);
            }
            if let Some(id) = find_first_of_kind(c, "identifier") {
                return Some(chars_of(id.text.as_str()));
            }
        }
        i = i + 1;
    }
    None
}

/// The name of the method a `methodCall` node calls.
fn get_method_call_name(n: &SyntaxNode) -> (r: Option<Vec<char>>)
    ensures
        r matches Some(x) ==> method_call_name(n.children@, false) == Some(x@),
        r is None ==> method_call_name(n.children@, false) is None,
{
    let mut found_dot = false;
    let mut i: usize = 0;
    assert(n.children@.skip(0) =~= n.children@);
    while i < n.children.len()
        invariant
            i <= n.children@.len(),
            method_call_name(n.children@, false) == method_call_name(
                n.children@.skip(i as int),
                found_dot,
            ),
        decreases n.children@.len() - i,
    {
        proof {
            assert(n.children@.skip(i as int)[0] == n.children@[i as int]);
            assert(n.children@.skip(i as int).drop_first() =~= n.children@.skip(i + 1));
        }
        let c = &n.children[i];
        if kind_is(c, ".") {
            found_dot = true;
        } else if found_dot && kind_is(c, "identifier") {
            return Some(chars_of(c.text.as_str()));
        }
        i = i + 1;
    }
    None
}

/// The characters of `line` from byte `from` to byte `to`.
fn line_bytes(line: &Vec<char>, from: usize, to: usize) -> (r: Vec<char>)
    requires
        from <= to <= encode_utf8(line@).len(),
        is_char_boundary(encode_utf8(line@), from as int),
        is_char_boundary(encode_utf8(line@), to as int),
    ensures
        r@ == decode_utf8(encode_utf8(line@).subrange(from as int, to as int)),
{
    let s = string_of(line);
    match str_get(s.as_str(), from, to) {
        Some(t) => {
            proof {
                encode_utf8_decode_utf8(t@);
            }
            chars_of(t)
        },
        None => Vec::new(),
    }
}

/// The number of bytes in the UTF-8 encoding of `line`.
fn line_byte_len(line: &Vec<char>) -> (n: usize)
    ensures
        n as int == encode_utf8(line@).len(),
{
    let s = string_of(line);
    s.as_str().as_bytes().len()
}

/// The argument text of a call that spans lines.
fn multi_line_text(
    ls: &Vec<Vec<char>>,
    sl: usize,
    sc: usize,
    cl: usize,
    cc: usize,
    open: usize,
) -> (r: Vec<char>)
    requires
        open < usize::MAX,
        multi_line_cuttable(
            lines_view(ls@),
            sl as int,
            sc as int,
            cl as int,
            cc as int,
            open as int,
        ),
    ensures
        r@ == multi_line_args(
            lines_view(ls@),
            sl as int,
            sc as int,
            cl as int,
            cc as int,
            open as int,
        ),
{
    let ghost lv = lines_view(ls@);
    let mut out: Vec<char> = Vec::new();
    if sl < ls.len() {
        let first = &ls[sl];
        assert(lv[sl as int] == first@);
        let n = line_byte_len(first);
        proof {
            vstd::utf8::encode_utf8_valid_utf8(first@);
            vstd::utf8::is_char_boundary_start_end_of_seq(encode_utf8(first@));
        }
        if sc <= usize::MAX - open - 1 && sc + open + 1 < n {
            let rest = line_bytes(first, sc + open + 1, n);
            crate::text::push_all(&mut out, &rest);
        }
        out.push('\n');
    }
    let ghost first_part = out@;
    assert(first_part == (if 0 <= sl < lv.len() {
        let b = encode_utf8(lv[sl as int]);
        (if sc + open + 1 < b.len() {
            decode_utf8(b.subrange(sc + open + 1, b.len() as int))
        } else {
            seq![]
        }) + seq!['\n']
    } else {
        seq![]
    }));
    if sl < usize::MAX {
        let mut k = sl + 1;
        while k < cl
            invariant
                sl + 1 <= k,
                lv == lines_view(ls@),
                out@ + middle_lines(lv, k as int, cl as int) == first_part + middle_lines(
                    lv,
                    sl + 1,
                    cl as int,
                ),
            decreases cl - k,
        {
            let ghost o = out@;
            if k < ls.len() {
                assert(lv[k as int] == ls@[k as int]@);
                crate::text::push_all(&mut out, &ls[k]);
                out.push('\n');
            }
            proof {
                assert(middle_lines(lv, k as int, cl as int) == (if 0 <= k < lv.len() {
                    lv[k as int] + seq!['\n']
                } else {
                    seq![]
                }) + middle_lines(lv, k + 1, cl as int));
                if k < ls@.len() {
                    assert(out@ =~= o + (lv[k as int] + seq!['\n']));
                }
                assert(out@ + middle_lines(lv, k + 1, cl as int) =~= o + middle_lines(
                    lv,
                    k as int,
                    cl as int,
                ));
            }
            k = k + 1;
        }
        assert(middle_lines(lv, k as int, cl as int) =~= Seq::<char>::empty());
        assert(out@ + Seq::<char>::empty() =~= out@);
    } else {
        assert(middle_lines(lv, sl + 1, cl as int) =~= Seq::<char>::empty());
    }
    if cl < ls.len() {
        let last = &ls[cl];
        assert(lv[cl as int] == last@);
        let n = line_byte_len(last);
        let end = if cc <= n {
            cc
        } else {
            n
        };
        proof {
            vstd::utf8::encode_utf8_valid_utf8(last@);
            vstd::utf8::is_char_boundary_start_end_of_seq(encode_utf8(last@));
        }
        let part = line_bytes(last, 0, end);
        crate::text::push_all(&mut out, &part);
    }
    assert(out@ =~= multi_line_args(lv, sl as int, sc as int, cl as int, cc as int, open as int));
    out
}

proof fn lemma_paren_offset(text: Seq<char>)
    requires
        first_index_of(text, '(') < text.len(),
    ensures
        paren_offset(text) + 1 <= encode_utf8(text).len(),
{
    let i = first_index_of(text, '(');
    crate::text::lemma_first_index_of_bounds(text, '(');
    assert(text =~= text.take(i) + text.skip(i));
    crate::text::lemma_encode_concat(text.take(i), text.skip(i));
    crate::text::lemma_encode_len_ge(text.skip(i));
}

/// The argument index of the call `n` at `pos`.
fn count_arguments_at_position(n: &SyntaxNode, source: &str, pos: Position) -> (r: usize)
    requires
        arguments_countable(*n, source@, pos),
    ensures
        r as int == argument_index(*n, source@, pos),
{
    let text = n.text.as_str();
    let tc = chars_of(text);
    let fi = first_index_exec(&tc, 0, '(');
    assert(tc@.skip(0) =~= tc@);
    if fi == tc.len() {
        return 0;
    }
    let text_bytes = text.as_bytes().len();
    let prefix = slice_chars(&tc, 0, fi);
    proof {
        lemma_paren_offset(text@);
        assert(prefix@ =~= text@.take(fi as int));
    }
    let open = crate::text::utf8_len(&prefix);
    let start_line = n.start_row;
    let start_col = n.start_col;
    let cursor_line = pos.line as usize;
    let cursor_col = pos.character as usize;
    if cursor_line == start_line {
        if start_col <= usize::MAX - open - 1 && cursor_col > start_col + open + 1 {
            match str_get(text, open + 1, cursor_col - start_col) {
                Some(after) => {
                    proof {
                        encode_utf8_decode_utf8(after@);
                    }
                    count_top_level_commas(after)
                },
                None => 0,
            }
        } else {
            0
        }
    } else {
        let cs = chars_of(source);
        let ls = source_lines(&cs);
        let arg_text = multi_line_text(&ls, start_line, start_col, cursor_line, cursor_col, open);
        count_commas(&arg_text)
    }
}

/// The innermost call node on the way down to the point, given the innermost
/// one above `n` (`seen`).
fn descend_to_call<'a>(n: &'a SyntaxNode, row: usize, col: usize, seen: Option<&'a SyntaxNode>) -> (r:
    Option<&'a SyntaxNode>)
    ensures
        (match r {
            Some(x) => Some(*x),
            None => None,
        }) == (match last_call(descent(*n, row as int, col as int)) {
            Some(c) => Some(c),
            None => match seen {
                Some(x) => Some(*x),
                None => None,
            },
        }),
    decreases n,
{
    let here = if kind_is(n, "functionCall") || kind_is(n, "methodCall") {
        Some(n)
    } else {
        seen
    };
    let mut i: usize = 0;
    assert(n.children@.skip(0) =~= n.children@);
    while i < n.children.len() && (n.children[i].end_row < row || (n.children[i].end_row == row
        && n.children[i].end_col <= col))
        invariant
            i <= n.children@.len(),
            index_ending_after(n.children@, row as int, col as int) == i + index_ending_after(
                n.children@.skip(i as int),
                row as int,
                col as int,
            ),
        decreases n.children@.len() - i,
    {
        proof {
            assert(n.children@.skip(i as int)[0] == n.children@[i as int]);
            assert(n.children@.skip(i as int).drop_first() =~= n.children@.skip(i + 1));
        }
        i = i + 1;
    }
    proof {
        if i < n.children@.len() {
            assert(n.children@.skip(i as int)[0] == n.children@[i as int]);
        }
    }
    let ghost path = descent(*n, row as int, col as int);
    proof {
        let single = seq![*n];
        assert(single.drop_last() =~= Seq::<SyntaxNode>::empty());
        assert(single.last() == *n);
        assert(last_call(single.drop_last()) is None);
        assert(last_call(single) == (if is_call_kind(n.kind@) {
            Some(*n)
        } else {
            None
        }));
    }
    if i < n.children.len() {
        let c = &n.children[i];
        if c.start_row < row || (c.start_row == row && c.start_col <= col) {
            let r = descend_to_call(c, row, col, here);
            proof {
                let sub = descent(*c, row as int, col as int);
                assert(path == seq![*n] + sub);
                lemma_last_call_append(seq![*n], sub);
            }
            return r;
        }
    }
    assert(path == seq![*n]);
    here
}

proof fn lemma_last_call_append(a: Seq<SyntaxNode>, b: Seq<SyntaxNode>)
    ensures
        last_call(a + b) == (match last_call(b) {
            Some(c) => Some(c),
            None => last_call(a),
        }),
    decreases b.len(),
{
    if b.len() == 0 {
        assert(a + b =~= a);
    } else {
        assert((a + b).drop_last() =~= a + b.drop_last());
        assert((a + b).last() == b.last());
        lemma_last_call_append(a, b.drop_last());
    }
}

/// The call around `position`: the innermost function or method call that
/// holds it, with the callable's name and the index of the argument the
/// cursor is on.
pub fn find_call_context(tree: &SyntaxNode, source: &str, position: Position) -> (r: Option<
    CallContext,
>)
    requires
        call_context_defined(*tree, source@, position),
    ensures
        r matches Some(c) ==> call_context_at(*tree, source@, position) == Some(
            (c.callable_name@, c.argument_index as int),
        ),
        r is None ==> call_context_at(*tree, source@, position) is None,
{
    let node = match descend_to_call(tree, position.line as usize, position.character as usize, None) {
        Some(n) => n,
        None => return None,
    };
    let name = if kind_is(node, "functionCall") {
        get_function_call_name(node)
    } else if kind_is(node, "methodCall") {
        get_method_call_name(node)
    } else {
        None
    };
    let name = match name {
        Some(x) => x,
        None => return None,
    };
    let argument_index = count_arguments_at_position(node, source, position);
    Some(CallContext { callable_name: string_of(&name), argument_index })
}

/// Whether the argument index of the call around `position` can be
/// measured, so that `find_call_context` may be asked.
pub fn call_context_measurable(tree: &SyntaxNode, source: &str, position: Position) -> (r: bool)
    ensures
        r == call_context_defined(*tree, source@, position),
{
    match descend_to_call(tree, position.line as usize, position.character as usize, None) {
        None => true,
        Some(node) => arguments_countable_exec(node, source, position),
    }
}

fn arguments_countable_exec(n: &SyntaxNode, source: &str, pos: Position) -> (r: bool)
    ensures
        r == arguments_countable(*n, source@, pos),
{
    let text = n.text.as_str();
    let tc = chars_of(text);
    let fi = first_index_exec(&tc, 0, '(');
    assert(tc@.skip(0) =~= tc@);
    if fi == tc.len() {
        return true;
    }
    let text_bytes = text.as_bytes().len();
    let prefix = slice_chars(&tc, 0, fi);
    proof {
        lemma_paren_offset(text@);
        assert(prefix@ =~= text@.take(fi as int));
    }
    let open = crate::text::utf8_len(&prefix);
    let sc = n.start_col;
    let cc = pos.character as usize;
    if pos.line as usize == n.start_row {
        if sc <= usize::MAX - open - 1 && cc > sc + open + 1 {
            cc - sc <= text_bytes && text.is_char_boundary(open + 1) && text.is_char_boundary(
                cc - sc,
            )
        } else {
            true
        }
    } else {
        let cs = chars_of(source);
        let ls = source_lines(&cs);
        let ghost lv = lines_view(ls@);
        let sl = n.start_row;
        let cl = pos.line as usize;
        let first_ok = if sl < ls.len() {
            assert(lv[sl as int] == ls@[sl as int]@);
            let first = string_of(&ls[sl]);
            let len = first.as_str().as_bytes().len();
            !(sc <= usize::MAX - open - 1 && sc + open + 1 < len) || first.as_str().is_char_boundary(
                sc + open + 1,
            )
        } else {
            true
        };
        let last_ok = if cl < ls.len() {
            assert(lv[cl as int] == ls@[cl as int]@);
            let last = string_of(&ls[cl]);
            let len = last.as_str().as_bytes().len();
            let end = if cc <= len {
                cc
            } else {
                len
            };
            last.as_str().is_char_boundary(end)
        } else {
            true
        };
        first_ok && last_ok
    }
}

proof fn lemma_comma_run_concat(st: (int, int), a: Seq<char>, b: Seq<char>)
    ensures
        comma_run(st, a + b) == comma_run(comma_run(st, a), b),
    decreases b.len(),
{
    if b.len() == 0 {
        assert(a + b =~= a);
    } else {
        assert((a + b).drop_last() =~= a + b.drop_last());
        assert((a + b).last() == b.last());
        lemma_comma_run_concat(st, a, b.drop_last());
    }
}

proof fn lemma_comma_run_depth(s: Seq<char>)
    ensures
        comma_run((0, 0), s).0 >= 0,
    decreases s.len(),
{
    if s.len() > 0 {
        lemma_comma_run_depth(s.drop_last());
    }
}

proof fn lemma_comma_run_inside(st: (int, int), b: Seq<char>)
    requires
        st.0 > 0,
        forall|i: int| 0 <= i < b.len() ==> !is_opener(#[trigger] b[i]) && !is_closer(b[i]),
    ensures
        comma_run(st, b) == st,
    decreases b.len(),
{
    if b.len() > 0 {
        lemma_comma_run_inside(st, b.drop_last());
        assert(b.last() == b[b.len() - 1]);
    }
}

/// Commas inside a bracketed part without brackets of its own do not
/// count: the text reads as if the part were not there.
pub proof fn bracketed_commas_not_counted(
    a: Seq<char>,
    open: char,
    b: Seq<char>,
    close: char,
    c: Seq<char>,
)
    requires
        is_opener(open),
        is_closer(close),
        forall|i: int| 0 <= i < b.len() ==> !is_opener(#[trigger] b[i]) && !is_closer(b[i]),
    ensures
        top_level_commas(a + seq![open] + b + seq![close] + c) == top_level_commas(a + c),
{
    let st = comma_run((0, 0), a);
    lemma_comma_run_concat((0, 0), a, c);
    lemma_comma_run_concat((0, 0), a + seq![open] + b + seq![close], c);
    lemma_comma_run_concat((0, 0), a + seq![open] + b, seq![close]);
    lemma_comma_run_concat((0, 0), a + seq![open], b);
    lemma_comma_run_concat((0, 0), a, seq![open]);
    assert(seq![open].drop_last() =~= Seq::<char>::empty());
    assert(seq![close].drop_last() =~= Seq::<char>::empty());
    assert(comma_run(st, Seq::<char>::empty()) == st);
    assert(seq![open].last() == open);
    assert(seq![close].last() == close);
    lemma_comma_run_depth(a);
    let after_open = comma_run(st, seq![open]);
    assert(comma_run(after_open, Seq::<char>::empty()) == after_open);
    assert(after_open == (st.0 + 1, st.1));
    lemma_comma_run_inside(after_open, b);
    assert(comma_run(after_open, seq![close]) == st);
}

} // verus!
