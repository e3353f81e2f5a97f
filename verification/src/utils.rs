//! Small helpers on paths and document text.
use vstd::prelude::*;
use vstd::string::StrSliceExecFns;

use crate::text::{chars_of, ends_with, line_spans, lines_of, nth_line, push_char};

verus! {

/// `path` with each backslash made a forward slash.
pub open spec fn normalized(path: Seq<char>) -> Seq<char> {
    path.map_values(|c: char| if c == '\\' { '/' } else { c })
}

/// `path` with its separators written as `/`.
pub fn normalize_path(path: &str) -> (r: String)
    ensures
        r@ == normalized(path@),
{
    let cs = chars_of(path);
    let mut out = String::new();
    let mut i: usize = 0;
    while i < cs.len()
        invariant
            i <= cs@.len(),
            cs@ == path@,
            out@ == normalized(cs@.take(i as int)),
        decreases cs@.len() - i,
    {
        let c = cs[i];
        if c == '\\' {
            push_char(&mut out, '/');
        } else {
            push_char(&mut out, c);
        }
        assert(normalized(cs@.take(i + 1)) =~= normalized(cs@.take(i as int)).push(
            if c == '\\' {
                '/'
            } else {
                c
            },
        ));
        i = i + 1;
    }
    assert(cs@.take(cs@.len() as int) =~= cs@);
    out
}

/// The line of `text` at index `line`, as `str::lines` splits it.
pub fn get_line_content(text: &str, line: usize) -> (r: Option<&str>)
    ensures
        r matches Some(l) ==> nth_line(text@, line as int) == Some(l@),
        r is None ==> nth_line(text@, line as int) is None,
{
    let cs = chars_of(text);
    let spans = line_spans(&cs);
    if line < spans.len() {
        let (a, b) = spans[line];
        assert(lines_of(text@)[line as int] == text@.subrange(a as int, b as int));
        Some(text.substring_char(a, b))
    } else {
        None
    }
}

/// The path names a BSV source file (`.bsv` or `.bs`).
pub fn is_bsv_file(path: &str) -> (r: bool)
    ensures
        r == (ends_with(path@, ".bsv"@) || ends_with(path@, ".bs"@)),
{
    let cs = chars_of(path);
    crate::text::ends_with_str(&cs, ".bsv") || crate::text::ends_with_str(&cs, ".bs")
}

/// A normalised path holds no backslash, and normalising it again changes
/// nothing.
pub proof fn normalizing_is_final(path: Seq<char>)
    ensures
        forall|i: int| 0 <= i < normalized(path).len() ==> #[trigger] normalized(path)[i] != '\\',
        normalized(normalized(path)) == normalized(path),
{
    assert(normalized(normalized(path)) =~= normalized(path));
}

} // verus!
