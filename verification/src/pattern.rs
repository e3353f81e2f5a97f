//! Regular-expression matching, done by the `regex` crate.
use vstd::prelude::*;
use vstd::string::StringSliceAdditionalSpecFns;
use vstd::utf8::decode_utf8;

verus! {

/// Where one capture group matched: byte offsets into the searched text,
/// and the text that matched.
pub struct GroupMatch {
    pub start: usize,
    pub end: usize,
    pub text: String,
}

/// A group's match as plain values.
pub open spec fn group_view(g: Option<GroupMatch>) -> Option<(int, int, Seq<char>)> {
    match g {
        Some(m) => Some((m.start as int, m.end as int, m.text@)),
        None => None,
    }
}

/// The groups of every match as plain values.
pub open spec fn captures_view(c: Seq<Vec<Option<GroupMatch>>>) -> Seq<
    Seq<Option<(int, int, Seq<char>)>>,
> {
    Seq::new(c.len(), |i: int| Seq::new(c[i]@.len(), |j: int| group_view(c[i]@[j])))
}

/// Whether `regex::Regex::new` accepts `pattern`.
pub uninterp spec fn regex_compiles(pattern: Seq<char>) -> bool;

/// The successive non-overlapping matches of `pattern` in `haystack`, as
/// `Regex::captures_iter` yields them: for each match, each capture group
/// (group 0 being the whole match) as byte offsets and matched text, or
/// `None` for a group that took no part in the match.
pub uninterp spec fn regex_captures(pattern: Seq<char>, haystack: Seq<char>) -> Seq<
    Seq<Option<(int, int, Seq<char>)>>,
>;

/// The text that `Regex::replace_all` gives: every non-overlapping match of
/// `pattern` in `haystack` replaced by `replacement`, where `$n` stands for
/// the text of group `n`.
pub uninterp spec fn regex_replace_all(
    pattern: Seq<char>,
    haystack: Seq<char>,
    replacement: Seq<char>,
) -> Seq<char>;

/// Every group's span lies within the searched text, start before end, as the
/// `regex` crate documents of `Match::start` and `Match::end`.
pub open spec fn spans_within(c: Seq<Seq<Option<(int, int, Seq<char>)>>>, len: int) -> bool {
    forall|i: int, j: int|
        #![trigger c[i][j]]
        0 <= i < c.len() && 0 <= j < c[i].len() && c[i][j] is Some ==> 0 <= (c[i][j]->0).0 <= (c[i][j]->0).1
            <= len
}

/// Each group's text is the part of the searched text (as UTF-8 bytes)
/// between its start and its end, as `Match::as_str` gives it.
pub open spec fn texts_match_spans(c: Seq<Seq<Option<(int, int, Seq<char>)>>>, bytes: Seq<u8>) -> bool {
    forall|i: int, j: int|
        #![trigger c[i][j]]
        0 <= i < c.len() && 0 <= j < c[i].len() && c[i][j] is Some ==> (c[i][j]->0).2
            == decode_utf8(bytes.subrange((c[i][j]->0).0, (c[i][j]->0).1))
}

/// Every match has its whole-match group 0, and each match ends no later than
/// the next one starts: `captures_iter` yields successive non-overlapping
/// matches.
pub open spec fn matches_in_order(c: Seq<Seq<Option<(int, int, Seq<char>)>>>) -> bool {
    &&& forall|i: int| 0 <= i < c.len() ==> (#[trigger] c[i]).len() > 0 && c[i][0] is Some
    &&& forall|i: int, j: int|
        #![trigger c[i], c[j]]
        0 <= i && j == i + 1 && j < c.len() ==> (c[i][0]->0).1 <= (c[j][0]->0).0
}

/// Compiles `pattern` with `regex::Regex::new` and collects
/// `Regex::captures_iter` over `haystack`; `None` when the pattern does not
/// compile.
#[verifier::external_body]
pub(crate) fn captures_all(pattern: &str, haystack: &str) -> (r: Option<Vec<Vec<Option<GroupMatch>>>>)
    ensures
        r is Some <==> regex_compiles(pattern@),
        r matches Some(c) ==> captures_view(c@) == regex_captures(pattern@, haystack@),
        r matches Some(c) ==> spans_within(captures_view(c@), haystack.spec_bytes().len() as int),
        r matches Some(c) ==> texts_match_spans(captures_view(c@), haystack.spec_bytes()),
        r matches Some(c) ==> matches_in_order(captures_view(c@)),
{
    let re = regex::Regex::new(pattern).ok()?;
    Some(
        re.captures_iter(haystack).map(|caps| {
            caps.iter().map(|g| {
                g.map(|m| GroupMatch { start: m.start(), end: m.end(), text: m.as_str().to_string() })
            }).collect()
        }).collect(),
    )
}

/// Compiles `pattern` with `regex::Regex::new` and applies
/// `Regex::replace_all` to `haystack`; `None` when the pattern does not
/// compile.
#[verifier::external_body]
pub(crate) fn replace_all(pattern: &str, haystack: &str, replacement: &str) -> (r: Option<String>)
    ensures
        r is Some <==> regex_compiles(pattern@),
        r matches Some(s) ==> s@ == regex_replace_all(pattern@, haystack@, replacement@),
{
    let re = regex::Regex::new(pattern).ok()?;
    Some(re.replace_all(haystack, replacement).into_owned())
}

} // verus!
