//! Character-level views of text and the string operations the analyses use.
use vstd::prelude::*;
use vstd::utf8::{char_is_scalar, encode_scalar, encode_utf8};

verus! {

/// The Unicode `White_Space` property, which `char::is_whitespace` documents.
pub open spec fn is_ws(c: char) -> bool {
    ||| c == ' '
    ||| c == '\t'
    ||| c == '\n'
    ||| c == '\x0B'
    ||| c == '\x0C'
    ||| c == '\r'
    ||| c == '\u{85}'
    ||| c == '\u{A0}'
    ||| c == '\u{1680}'
    ||| ('\u{2000}' <= c && c <= '\u{200A}')
    ||| c == '\u{2028}'
    ||| c == '\u{2029}'
    ||| c == '\u{202F}'
    ||| c == '\u{205F}'
    ||| c == '\u{3000}'
}

pub fn char_is_whitespace(c: char) -> (b: bool)
    ensures
        b == is_ws(c),
{
    c == ' ' || c == '\t' || c == '\n' || c == '\x0B' || c == '\x0C' || c == '\r' || c == '\u{85}'
        || c == '\u{A0}' || c == '\u{1680}' || ('\u{2000}' <= c && c <= '\u{200A}') || c
        == '\u{2028}' || c == '\u{2029}' || c == '\u{202F}' || c == '\u{205F}' || c == '\u{3000}'
}

/// `s` with its leading white space removed.
pub open spec fn trim_start(s: Seq<char>) -> Seq<char>
    decreases s.len(),
{
    if s.len() > 0 && is_ws(s[0]) {
        trim_start(s.drop_first())
    } else {
        s
    }
}

/// `s` with its trailing white space removed.
pub open spec fn trim_end(s: Seq<char>) -> Seq<char>
    decreases s.len(),
{
    if s.len() > 0 && is_ws(s.last()) {
        trim_end(s.drop_last())
    } else {
        s
    }
}

/// `s` with white space removed from both ends, as `str::trim` does.
pub open spec fn trim(s: Seq<char>) -> Seq<char> {
    trim_end(trim_start(s))
}

pub open spec fn starts_with(s: Seq<char>, p: Seq<char>) -> bool {
    p.len() <= s.len() && s.take(p.len() as int) == p
}

pub open spec fn ends_with(s: Seq<char>, p: Seq<char>) -> bool {
    p.len() <= s.len() && s.skip(s.len() - p.len()) == p
}

/// `p` occurs in `s` at index `i`.
pub open spec fn occurs_at(s: Seq<char>, p: Seq<char>, i: int) -> bool {
    0 <= i && i + p.len() <= s.len() && s.subrange(i, i + p.len()) == p
}

pub open spec fn contains_seq(s: Seq<char>, p: Seq<char>) -> bool {
    exists|i: int| occurs_at(s, p, i)
}

/// The index of the first occurrence of `p` in `s`, if any.
pub open spec fn find_seq(s: Seq<char>, p: Seq<char>) -> Option<int> {
    if contains_seq(s, p) {
        Some(choose|i: int| occurs_at(s, p, i) && forall|j: int| 0 <= j < i ==> !occurs_at(s, p, j))
    } else {
        None
    }
}

/// The index of the first `c` in `s`, or `s.len()` when there is none.
pub open spec fn first_index_of(s: Seq<char>, c: char) -> int
    decreases s.len(),
{
    if s.len() == 0 {
        0
    } else if s[0] == c {
        0
    } else {
        1 + first_index_of(s.drop_first(), c)
    }
}

pub proof fn lemma_first_index_of_bounds(s: Seq<char>, c: char)
    ensures
        0 <= first_index_of(s, c) <= s.len(),
        first_index_of(s, c) < s.len() ==> s[first_index_of(s, c)] == c,
        forall|k: int| 0 <= k < first_index_of(s, c) ==> s[k] != c,
    decreases s.len(),
{
    if s.len() > 0 && s[0] != c {
        lemma_first_index_of_bounds(s.drop_first(), c);
        assert forall|k: int| 0 <= k < first_index_of(s, c) implies s[k] != c by {
            if k > 0 {
                assert(s[k] == s.drop_first()[k - 1]);
            }
        }
    }
}

pub proof fn lemma_first_index_of_is(s: Seq<char>, c: char, i: int)
    requires
        0 <= i <= s.len(),
        forall|k: int| 0 <= k < i ==> s[k] != c,
        i == s.len() || s[i] == c,
    ensures
        first_index_of(s, c) == i,
    decreases s.len(),
{
    if s.len() > 0 && i > 0 {
        assert forall|k: int| 0 <= k < i - 1 implies s.drop_first()[k] != c by {
            assert(s.drop_first()[k] == s[k + 1]);
        }
        lemma_first_index_of_is(s.drop_first(), c, i - 1);
    }
}

/// A line without its `\r` when that `\r` stood before the line's `\n`.
pub open spec fn strip_cr(line: Seq<char>) -> Seq<char> {
    if line.len() > 0 && line.last() == '\r' {
        line.drop_last()
    } else {
        line
    }
}

/// The lines of `s` as `str::lines` yields them: split at `\n` or `\r\n`, with
/// no empty line after a final line ending.
pub open spec fn lines_of(s: Seq<char>) -> Seq<Seq<char>>
    decreases s.len(),
{
    if s.len() == 0 {
        seq![]
    } else {
        let i = first_index_of(s, '\n');
        proof {
            lemma_first_index_of_bounds(s, '\n');
        }
        if i >= s.len() {
            seq![s]
        } else {
            seq![strip_cr(s.take(i))] + lines_of(s.skip(i + 1))
        }
    }
}

/// The line at index `n`, if `s` has that many lines.
pub open spec fn nth_line(s: Seq<char>, n: int) -> Option<Seq<char>> {
    if 0 <= n < lines_of(s).len() {
        Some(lines_of(s)[n])
    } else {
        None
    }
}

/// The characters of a string.
pub fn chars_of(s: &str) -> (v: Vec<char>)
    ensures
        v@ == s@,
{
    let mut v: Vec<char> = Vec::new();
    for c in it: s.chars()
        invariant
            v@ == it.seq().take(it.index() as int),
            it.seq() == s@,
    {
        v.push(c);
    }
    v
}

/// `String::push`.
#[verifier::external_body]
pub(crate) fn push_char(s: &mut String, c: char)
    ensures
        final(s)@ == old(s)@.push(c),
{
    s.push(c);
}

/// The string made of the characters `cs`.
pub fn string_of(cs: &[char]) -> (s: String)
    ensures
        s@ == cs@,
{
    let mut s = String::new();
    let mut i: usize = 0;
    while i < cs.len()
        invariant
            i <= cs@.len(),
            s@ == cs@.take(i as int),
        decreases cs@.len() - i,
    {
        push_char(&mut s, cs[i]);
        assert(cs@.take(i as int).push(cs@[i as int]) =~= cs@.take(i + 1));
        i = i + 1;
    }
    assert(cs@.take(cs@.len() as int) =~= cs@);
    s
}

/// Appends the characters of `t` to `s`.
pub fn append_str(s: &mut String, t: &str)
    ensures
        final(s)@ == old(s)@ + t@,
{
    let cs = chars_of(t);
    let ghost s0 = s@;
    let mut i: usize = 0;
    while i < cs.len()
        invariant
            i <= cs@.len(),
            cs@ == t@,
            s@ == s0 + cs@.take(i as int),
        decreases cs@.len() - i,
    {
        push_char(s, cs[i]);
        assert(s0 + cs@.take(i as int).push(cs@[i as int]) =~= s0 + cs@.take(i + 1));
        i = i + 1;
    }
    assert(cs@.take(cs@.len() as int) =~= cs@);
}

/// Appends the characters `cs` to `s`.
pub fn append_chars(s: &mut String, cs: &[char])
    ensures
        final(s)@ == old(s)@ + cs@,
{
    let ghost s0 = s@;
    let mut i: usize = 0;
    while i < cs.len()
        invariant
            i <= cs@.len(),
            s@ == s0 + cs@.take(i as int),
        decreases cs@.len() - i,
    {
        push_char(s, cs[i]);
        assert(s0 + cs@.take(i as int).push(cs@[i as int]) =~= s0 + cs@.take(i + 1));
        i = i + 1;
    }
    assert(cs@.take(cs@.len() as int) =~= cs@);
}

/// The characters `cs[from..to]`.
pub fn slice_chars(cs: &[char], from: usize, to: usize) -> (r: Vec<char>)
    requires
        from <= to <= cs@.len(),
    ensures
        r@ == cs@.subrange(from as int, to as int),
{
    let mut r: Vec<char> = Vec::new();
    let mut i = from;
    while i < to
        invariant
            from <= i <= to <= cs@.len(),
            r@ == cs@.subrange(from as int, i as int),
        decreases to - i,
    {
        r.push(cs[i]);
        assert(cs@.subrange(from as int, i as int).push(cs@[i as int]) =~= cs@.subrange(
            from as int,
            i + 1,
        ));
        i = i + 1;
    }
    r
}

pub fn chars_eq(a: &[char], b: &[char]) -> (r: bool)
    ensures
        r == (a@ == b@),
{
    if a.len() != b.len() {
        return false;
    }
    let mut i: usize = 0;
    while i < a.len()
        invariant
            i <= a@.len(),
            a@.len() == b@.len(),
            forall|k: int| 0 <= k < i ==> a@[k] == b@[k],
        decreases a@.len() - i,
    {
        if a[i] != b[i] {
            return false;
        }
        i = i + 1;
    }
    assert(a@ =~= b@);
    true
}

/// Whether two strings hold the same characters.
pub fn str_eq(a: &str, b: &str) -> (r: bool)
    ensures
        r == (a@ == b@),
{
    let ca = chars_of(a);
    let cb = chars_of(b);
    chars_eq(&ca, &cb)
}

/// Whether `p` occurs in `s` at index `i`.
pub fn occurs_at_exec(s: &[char], p: &[char], i: usize) -> (r: bool)
    ensures
        r == occurs_at(s@, p@, i as int),
{
    if i > s.len() || p.len() > s.len() - i {
        return false;
    }
    let mut k: usize = 0;
    while k < p.len()
        invariant
            i + p@.len() <= s@.len(),
            i + p.len() <= s.len(),
            k <= p@.len(),
            forall|j: int| 0 <= j < k ==> s@[i + j] == p@[j],
        decreases p@.len() - k,
    {
        if s[i + k] != p[k] {
            assert(s@.subrange(i as int, i + p@.len())[k as int] != p@[k as int]);
            return false;
        }
        k = k + 1;
    }
    assert(s@.subrange(i as int, i + p@.len()) =~= p@);
    true
}

pub fn starts_with_chars(s: &[char], p: &[char]) -> (r: bool)
    ensures
        r == starts_with(s@, p@),
{
    let r = occurs_at_exec(s, p, 0);
    assert(s@.subrange(0, p@.len() as int) =~= s@.take(p@.len() as int));
    r
}

pub fn starts_with_str(s: &[char], p: &str) -> (r: bool)
    ensures
        r == starts_with(s@, p@),
{
    let pc = chars_of(p);
    starts_with_chars(s, &pc)
}

/// Whether `s` ends with the characters of `p`.
pub fn ends_with_str(s: &[char], p: &str) -> (r: bool)
    ensures
        r == ends_with(s@, p@),
{
    let pc = chars_of(p);
    if pc.len() > s.len() {
        return false;
    }
    let from = s.len() - pc.len();
    let tail = slice_chars(s, from, s.len());
    assert(tail@ =~= s@.skip(from as int));
    chars_eq(&tail, &pc)
}

proof fn lemma_find_seq_is(s: Seq<char>, p: Seq<char>, i: int)
    requires
        occurs_at(s, p, i),
        forall|j: int| 0 <= j < i ==> !occurs_at(s, p, j),
    ensures
        find_seq(s, p) == Some(i),
{
    assert(contains_seq(s, p));
    let w = choose|k: int| occurs_at(s, p, k) && forall|j: int| 0 <= j < k ==> !occurs_at(s, p, j);
    assert(occurs_at(s, p, w) && forall|j: int| 0 <= j < w ==> !occurs_at(s, p, j));
    if w < i {
        assert(!occurs_at(s, p, w));
    } else if w > i {
        assert(!occurs_at(s, p, i));
    }
}

/// The index of the first occurrence of `p` in `s`, as `str::find` gives it
/// (counted in characters).
pub fn find_chars(s: &[char], p: &[char]) -> (r: Option<usize>)
    ensures
        r matches Some(i) ==> find_seq(s@, p@) == Some(i as int) && occurs_at(s@, p@, i as int),
        r is None ==> find_seq(s@, p@) is None,
{
    let mut i: usize = 0;
    while i <= s.len()
        invariant
            forall|j: int| 0 <= j < i ==> !occurs_at(s@, p@, j),
        decreases s@.len() + 1 - i,
    {
        if occurs_at_exec(s, p, i) {
            proof {
                lemma_find_seq_is(s@, p@, i as int);
            }
            return Some(i);
        }
        if i == s.len() {
            assert forall|j: int| !occurs_at(s@, p@, j) by {
                if 0 <= j <= s@.len() {
                    assert(j < i || j == i);
                }
            }
            return None;
        }
        i = i + 1;
    }
    None
}

pub fn contains_chars(s: &[char], p: &[char]) -> (r: bool)
    ensures
        r == contains_seq(s@, p@),
{
    match find_chars(s, p) {
        Some(_) => true,
        None => false,
    }
}

/// The index of the first `c` in `s`, or `s.len()`.
pub fn first_index_exec(s: &[char], from: usize, c: char) -> (r: usize)
    requires
        from <= s@.len(),
    ensures
        from <= r <= s@.len(),
        r as int - from == first_index_of(s@.skip(from as int), c),
        forall|k: int| from <= k < r ==> s@[k] != c,
        r < s@.len() ==> s@[r as int] == c,
{
    let mut i = from;
    while i < s.len() && s[i] != c
        invariant
            from <= i <= s@.len(),
            forall|k: int| from <= k < i ==> s@[k] != c,
        decreases s@.len() - i,
    {
        i = i + 1;
    }
    proof {
        let t = s@.skip(from as int);
        assert forall|k: int| 0 <= k < i - from implies t[k] != c by {
            assert(t[k] == s@[from + k]);
        }
        lemma_first_index_of_is(t, c, i - from);
    }
    i
}

proof fn lemma_trim_start_step(s: Seq<char>, a: int)
    requires
        0 <= a < s.len(),
        is_ws(s[a]),
    ensures
        trim_start(s.skip(a)) == trim_start(s.skip(a + 1)),
{
    assert(s.skip(a).drop_first() =~= s.skip(a + 1));
}

proof fn lemma_trim_end_step(s: Seq<char>, b: int)
    requires
        0 < b <= s.len(),
        is_ws(s[b - 1]),
    ensures
        trim_end(s.take(b)) == trim_end(s.take(b - 1)),
{
    assert(s.take(b).drop_last() =~= s.take(b - 1));
}

/// The bounds of `s` without leading white space.
pub fn trim_start_index(s: &[char]) -> (a: usize)
    ensures
        a <= s@.len(),
        trim_start(s@) == s@.skip(a as int),
{
    let mut a: usize = 0;
    assert(s@.skip(0) =~= s@);
    while a < s.len() && char_is_whitespace(s[a])
        invariant
            a <= s@.len(),
            trim_start(s@) == trim_start(s@.skip(a as int)),
        decreases s@.len() - a,
    {
        proof {
            lemma_trim_start_step(s@, a as int);
        }
        a = a + 1;
    }
    proof {
        if a < s@.len() {
            assert(s@.skip(a as int)[0] == s@[a as int]);
        }
    }
    a
}

/// The end of `s[..to]` without trailing white space.
pub fn trim_end_index(s: &[char], to: usize) -> (b: usize)
    requires
        to <= s@.len(),
    ensures
        b <= to,
        trim_end(s@.take(to as int)) == s@.take(b as int),
{
    let mut b: usize = to;
    while b > 0 && char_is_whitespace(s[b - 1])
        invariant
            b <= to <= s@.len(),
            trim_end(s@.take(to as int)) == trim_end(s@.take(b as int)),
        decreases b,
    {
        proof {
            lemma_trim_end_step(s@, b as int);
        }
        b = b - 1;
    }
    proof {
        if b > 0 {
            assert(s@.take(b as int).last() == s@[b - 1]);
        }
    }
    b
}

/// `str::trim` over characters, giving the bounds of the trimmed part.
pub fn trim_bounds(s: &[char]) -> (r: (usize, usize))
    ensures
        r.0 <= r.1 <= s@.len(),
        trim(s@) == s@.subrange(r.0 as int, r.1 as int),
        trim_start(s@) == s@.skip(r.0 as int),
{
    let a = trim_start_index(s);
    let tail = slice_chars(s, a, s.len());
    let b = trim_end_index(&tail, tail.len());
    proof {
        assert(tail@.take(tail@.len() as int) =~= tail@);
        assert(tail@ =~= s@.skip(a as int));
        assert(tail@.take(b as int) =~= s@.subrange(a as int, a + b));
    }
    (a, a + b)
}

/// `str::trim` over characters.
pub fn trim_chars(s: &[char]) -> (r: Vec<char>)
    ensures
        r@ == trim(s@),
{
    let (a, b) = trim_bounds(s);
    slice_chars(s, a, b)
}

/// `str::trim_end` over characters.
pub fn trim_end_chars(s: &[char]) -> (r: Vec<char>)
    ensures
        r@ == trim_end(s@),
{
    let b = trim_end_index(s, s.len());
    assert(s@.take(s@.len() as int) =~= s@);
    slice_chars(s, 0, b)
}

/// `str::trim_start` over characters.
pub fn trim_start_chars(s: &[char]) -> (r: Vec<char>)
    ensures
        r@ == trim_start(s@),
{
    let a = trim_start_index(s);
    slice_chars(s, a, s.len())
}

proof fn lemma_lines_step(s: Seq<char>, p: int, q: int)
    requires
        0 <= p <= q < s.len(),
        s[q] == '\n',
        forall|k: int| p <= k < q ==> s[k] != '\n',
    ensures
        lines_of(s.skip(p)) == seq![strip_cr(s.subrange(p, q))] + lines_of(s.skip(q + 1)),
{
    let t = s.skip(p);
    assert forall|k: int| 0 <= k < q - p implies t[k] != '\n' by {
        assert(t[k] == s[p + k]);
    }
    assert(t[q - p] == s[q]);
    lemma_first_index_of_is(t, '\n', q - p);
    assert(t.take(q - p) =~= s.subrange(p, q));
    assert(t.skip(q - p + 1) =~= s.skip(q + 1));
}

proof fn lemma_lines_last(s: Seq<char>, p: int)
    requires
        0 <= p < s.len(),
        forall|k: int| p <= k < s.len() ==> s[k] != '\n',
    ensures
        lines_of(s.skip(p)) == seq![s.skip(p)],
{
    let t = s.skip(p);
    assert forall|k: int| 0 <= k < t.len() implies t[k] != '\n' by {
        assert(t[k] == s[p + k]);
    }
    lemma_first_index_of_is(t, '\n', t.len() as int);
}

/// The lines of `s`, each given by its start and end index (the end
/// excludes the line ending).
pub fn line_spans(s: &[char]) -> (r: Vec<(usize, usize)>)
    ensures
        r@.len() == lines_of(s@).len(),
        forall|i: int|
 #![trigger r@[i]]
            0 <= i < r@.len() ==> {
                &&& r@[i].0 <= r@[i].1
                &&& r@[i].1 <= s@.len()
                &&& lines_of(s@)[i] == s@.subrange(r@[i].0 as int, r@[i].1 as int)
            },
{
    let mut r: Vec<(usize, usize)> = Vec::new();
    let mut p: usize = 0;
    let ghost done: Seq<Seq<char>> = seq![];
    assert(s@.skip(0) =~= s@);
    while p < s.len()
        invariant
            p <= s@.len(),
            lines_of(s@) == done + lines_of(s@.skip(p as int)),
            r@.len() == done.len(),
            forall|i: int|
 #![trigger r@[i]]
                0 <= i < r@.len() ==> {
                    &&& r@[i].0 <= r@[i].1
                &&& r@[i].1 <= s@.len()
                    &&& done[i] == s@.subrange(r@[i].0 as int, r@[i].1 as int)
                },
        decreases s@.len() - p,
    {
        let q = first_index_exec(s, p, '\n');
        if q == s.len() {
            let ghost old_r = r@;
            let ghost old_done = done;
            proof {
                lemma_lines_last(s@, p as int);
                assert(s@.skip(p as int) =~= s@.subrange(p as int, q as int));
                done = done.push(s@.subrange(p as int, q as int));
                assert(lines_of(s@.skip(q as int)) =~= seq![]);
                assert(done + lines_of(s@.skip(q as int)) =~= old_done + lines_of(s@.skip(p as int)));
            }
            r.push((p, q));
            assert forall|i: int| #![trigger r@[i]] 0 <= i < r@.len() implies {
                &&& r@[i].0 <= r@[i].1
                &&& r@[i].1 <= s@.len()
                &&& done[i] == s@.subrange(r@[i].0 as int, r@[i].1 as int)
            } by {
                if i < old_r.len() {
                    assert(r@[i] == old_r[i]);
                    assert(done[i] == old_done[i]);
                } else {
                    assert(r@[i] == (p, q));
                    assert(done[i] == s@.subrange(p as int, q as int));
                }
            }
            p = q;
        } else {
            let e = if q > p && s[q - 1] == '\r' {
                q - 1
            } else {
                q
            };
            proof {
                lemma_lines_step(s@, p as int, q as int);
                let l = s@.subrange(p as int, q as int);
                if q > p && s@[q - 1] == '\r' {
                    assert(strip_cr(l) =~= s@.subrange(p as int, e as int));
                } else {
                    assert(strip_cr(l) =~= s@.subrange(p as int, e as int));
                }
            }
            let ghost old_r = r@;
            let ghost old_done = done;
            proof {
                done = done.push(s@.subrange(p as int, e as int));
                assert(done + lines_of(s@.skip(q + 1)) =~= old_done + lines_of(s@.skip(p as int)));
            }
            r.push((p, e));
            assert forall|i: int| #![trigger r@[i]] 0 <= i < r@.len() implies {
                &&& r@[i].0 <= r@[i].1
                &&& r@[i].1 <= s@.len()
                &&& done[i] == s@.subrange(r@[i].0 as int, r@[i].1 as int)
            } by {
                if i < old_r.len() {
                    assert(r@[i] == old_r[i]);
                    assert(done[i] == old_done[i]);
                } else {
                    assert(r@[i] == (p, e));
                    assert(done[i] == s@.subrange(p as int, e as int));
                }
            }
            p = q + 1;
        }
    }
    proof {
        assert(lines_of(s@.skip(p as int)) =~= seq![]);
        assert(done + seq![] =~= done);
        assert(lines_of(s@) == done);
        assert forall|i: int| #![trigger r@[i]] 0 <= i < r@.len() implies {
            &&& r@[i].0 <= r@[i].1
                &&& r@[i].1 <= s@.len()
            &&& lines_of(s@)[i] == s@.subrange(r@[i].0 as int, r@[i].1 as int)
        } by {
            assert(done[i] == s@.subrange(r@[i].0 as int, r@[i].1 as int));
        }
    }
    r
}

/// Appends the characters `cs` to `out`.
pub fn push_all(out: &mut Vec<char>, cs: &[char])
    ensures
        final(out)@ == old(out)@ + cs@,
{
    let ghost o = out@;
    let mut i: usize = 0;
    while i < cs.len()
        invariant
            i <= cs@.len(),
            out@ == o + cs@.take(i as int),
        decreases cs@.len() - i,
    {
        out.push(cs[i]);
        assert(o + cs@.take(i as int).push(cs@[i as int]) =~= o + cs@.take(i + 1));
        i = i + 1;
    }
    assert(cs@.take(cs@.len() as int) =~= cs@);
}

/// Appends the characters of `t` to `out`.
pub fn push_str(out: &mut Vec<char>, t: &str)
    ensures
        final(out)@ == old(out)@ + t@,
{
    let cs = chars_of(t);
    push_all(out, &cs);
}

/// The lines `ls` joined with `\n` between them.
pub open spec fn join_lines(ls: Seq<Seq<char>>) -> Seq<char>
    decreases ls.len(),
{
    if ls.len() == 0 {
        seq![]
    } else if ls.len() == 1 {
        ls[0]
    } else {
        join_lines(ls.drop_last()) + seq!['\n'] + ls.last()
    }
}

/// The pieces of `s` between the occurrences of `c`, as `str::split` yields them.
pub open spec fn split_on(s: Seq<char>, c: char) -> Seq<Seq<char>>
    decreases s.len(),
{
    let i = first_index_of(s, c);
    proof {
        lemma_first_index_of_bounds(s, c);
    }
    if i >= s.len() {
        seq![s]
    } else {
        seq![s.take(i)] + split_on(s.skip(i + 1), c)
    }
}

/// The piece of `s` before the first `c`.
pub open spec fn before_first(s: Seq<char>, c: char) -> Seq<char> {
    s.take(first_index_of(s, c))
}

/// The piece of `s` before the first `c`, as `str::split(c).next()` gives it.
pub fn before_first_exec(s: &[char], c: char) -> (r: Vec<char>)
    ensures
        r@ == before_first(s@, c),
{
    let i = first_index_exec(s, 0, c);
    assert(s@.skip(0) =~= s@);
    slice_chars(s, 0, i)
}

/// The pieces of `s` between the occurrences of `c`.
pub fn split_on_exec(s: &[char], c: char) -> (r: Vec<Vec<char>>)
    ensures
        r@.len() == split_on(s@, c).len(),
        forall|i: int| #![trigger r@[i]] 0 <= i < r@.len() ==> r@[i]@ == split_on(s@, c)[i],
{
    let mut r: Vec<Vec<char>> = Vec::new();
    let mut p: usize = 0;
    let ghost done: Seq<Seq<char>> = seq![];
    assert(s@.skip(0) =~= s@);
    loop
        invariant
            p <= s@.len(),
            split_on(s@, c) == done + split_on(s@.skip(p as int), c),
            r@.len() == done.len(),
            forall|i: int| #![trigger r@[i]] 0 <= i < r@.len() ==> r@[i]@ == done[i],
        decreases s@.len() - p,
    {
        let q = first_index_exec(s, p, c);
        let piece = slice_chars(s, p, q);
        let ghost old_r = r@;
        let ghost old_done = done;
        proof {
            let t = s@.skip(p as int);
            assert(t.take(q - p) =~= s@.subrange(p as int, q as int));
            done = done.push(s@.subrange(p as int, q as int));
        }
        r.push(piece);
        assert forall|i: int| #![trigger r@[i]] 0 <= i < r@.len() implies r@[i]@ == done[i] by {
            if i < old_r.len() {
                assert(r@[i] == old_r[i]);
            }
        }
        if q == s.len() {
            proof {
                let t = s@.skip(p as int);
                assert(t =~= s@.subrange(p as int, q as int));
                assert(split_on(t, c) == seq![t]);
                assert(old_done + seq![t] =~= done);
            }
            return r;
        }
        proof {
            let t = s@.skip(p as int);
            assert(t.skip(q - p + 1) =~= s@.skip(q + 1));
            assert(old_done + (seq![t.take(q - p)] + split_on(t.skip(q - p + 1), c)) =~= done
                + split_on(s@.skip(q + 1), c));
        }
        p = q + 1;
    }
}

/// The decimal digit for `d`.
pub open spec fn digit_char(d: int) -> char {
    ('0' as u32 + d) as char
}

/// The decimal representation of `n`.
pub open spec fn decimal_nat(n: nat) -> Seq<char>
    decreases n,
{
    if n < 10 {
        seq![digit_char(n as int)]
    } else {
        decimal_nat(n / 10) + seq![digit_char((n % 10) as int)]
    }
}

/// The decimal representation of `v`, as `i64::to_string` writes it.
pub open spec fn decimal(v: int) -> Seq<char> {
    if v < 0 {
        seq!['-'] + decimal_nat((-v) as nat)
    } else {
        decimal_nat(v as nat)
    }
}

fn push_decimal_u64(out: &mut Vec<char>, n: u64)
    ensures
        final(out)@ == old(out)@ + decimal_nat(n as nat),
    decreases n,
{
    let d = (n % 10) as u32;
    let c = char_from_digit(d);
    if n >= 10 {
        push_decimal_u64(out, n / 10);
    }
    out.push(c);
}

fn char_from_digit(d: u32) -> (c: char)
    requires
        d < 10,
    ensures
        c == digit_char(d as int),
{
    if d == 0 {
        '0'
    } else if d == 1 {
        '1'
    } else if d == 2 {
        '2'
    } else if d == 3 {
        '3'
    } else if d == 4 {
        '4'
    } else if d == 5 {
        '5'
    } else if d == 6 {
        '6'
    } else if d == 7 {
        '7'
    } else if d == 8 {
        '8'
    } else {
        '9'
    }
}

/// The decimal representation of `v`.
pub fn i64_decimal(v: i64) -> (r: Vec<char>)
    ensures
        r@ == decimal(v as int),
{
    let mut out: Vec<char> = Vec::new();
    if v < 0 {
        out.push('-');
        let m: u64 = if v == i64::MIN {
            9223372036854775808u64
        } else {
            (-v) as u64
        };
        push_decimal_u64(&mut out, m);
    } else {
        push_decimal_u64(&mut out, v as u64);
    }
    out
}

/// The UTF-8 encoding of a concatenation is the concatenation of the
/// encodings.
pub proof fn lemma_encode_concat(a: Seq<char>, b: Seq<char>)
    ensures
        encode_utf8(a + b) == encode_utf8(a) + encode_utf8(b),
    decreases a.len(),
{
    if a.len() == 0 {
        assert(a + b =~= b);
        assert(encode_utf8(a) + encode_utf8(b) =~= encode_utf8(b));
    } else {
        assert((a + b).drop_first() =~= a.drop_first() + b);
        assert((a + b)[0] == a[0]);
        lemma_encode_concat(a.drop_first(), b);
        let e = encode_scalar(a[0] as u32);
        assert(e + (encode_utf8(a.drop_first()) + encode_utf8(b)) =~= (e + encode_utf8(
            a.drop_first(),
        )) + encode_utf8(b));
    }
}

/// A part of a text encodes to no more bytes than the text.
pub proof fn lemma_encode_subrange(s: Seq<char>, a: int, b: int)
    requires
        0 <= a <= b <= s.len(),
    ensures
        encode_utf8(s.subrange(a, b)).len() <= encode_utf8(s).len(),
{
    assert(s =~= s.take(a) + (s.subrange(a, b) + s.skip(b)));
    lemma_encode_concat(s.subrange(a, b), s.skip(b));
    lemma_encode_concat(s.take(a), s.subrange(a, b) + s.skip(b));
}

/// The number of bytes in the UTF-8 encoding of `c`.
pub fn utf8_width(c: char) -> (w: usize)
    ensures
        w as int == encode_utf8(seq![c]).len(),
        1 <= w <= 4,
{
    proof {
        char_is_scalar(c);
        assert(seq![c].drop_first() =~= Seq::<char>::empty());
        assert(seq![c][0] == c);
        assert(encode_utf8(seq![c].drop_first()) =~= Seq::<u8>::empty());
        assert(encode_utf8(seq![c]) =~= encode_scalar(c as u32));
    }
    let v = c as u32;
    if v <= 0x7f {
        1
    } else if v <= 0x7ff {
        2
    } else if v <= 0xffff {
        3
    } else {
        4
    }
}

/// The number of bytes in the UTF-8 encoding of `cs`.
pub fn utf8_len(cs: &[char]) -> (n: usize)
    requires
        encode_utf8(cs@).len() <= usize::MAX,
    ensures
        n as int == encode_utf8(cs@).len(),
{
    let mut total: usize = 0;
    let mut i: usize = 0;
    assert(cs@.take(0) =~= Seq::<char>::empty());
    while i < cs.len()
        invariant
            i <= cs@.len(),
            encode_utf8(cs@).len() <= usize::MAX,
            total as int == encode_utf8(cs@.take(i as int)).len(),
        decreases cs@.len() - i,
    {
        let w = utf8_width(cs[i]);
        proof {
            assert(cs@.take(i + 1) =~= cs@.take(i as int) + seq![cs@[i as int]]);
            lemma_encode_concat(cs@.take(i as int), seq![cs@[i as int]]);
            lemma_encode_subrange(cs@, 0, i + 1);
            assert(cs@.subrange(0, i + 1) =~= cs@.take(i + 1));
        }
        total = total + w;
        i = i + 1;
    }
    assert(cs@.take(cs@.len() as int) =~= cs@);
    total
}

/// Each line of a text encodes to no more bytes than the text.
pub proof fn lemma_lines_encode_bound(s: Seq<char>)
    ensures
        forall|k: int|
            0 <= k < lines_of(s).len() ==> encode_utf8(#[trigger] lines_of(s)[k]).len()
                <= encode_utf8(s).len(),
    decreases s.len(),
{
    if s.len() > 0 {
        let i = first_index_of(s, '\n');
        lemma_first_index_of_bounds(s, '\n');
        if i < s.len() {
            let rest = s.skip(i + 1);
            lemma_lines_encode_bound(rest);
            assert(rest =~= s.subrange(i + 1, s.len() as int));
            lemma_encode_subrange(s, i + 1, s.len() as int);
            let first = strip_cr(s.take(i));
            assert(first =~= s.subrange(0, first.len() as int));
            lemma_encode_subrange(s, 0, first.len() as int);
            assert forall|k: int| 0 <= k < lines_of(s).len() implies encode_utf8(
                #[trigger] lines_of(s)[k],
            ).len() <= encode_utf8(s).len() by {
                if k > 0 {
                    assert(lines_of(s)[k] == lines_of(rest)[k - 1]);
                }
            }
        } else {
            assert(lines_of(s) == seq![s]);
        }
    }
}

/// A text encodes to at least as many bytes as it has characters.
pub proof fn lemma_encode_len_ge(cs: Seq<char>)
    ensures
        cs.len() <= encode_utf8(cs).len(),
    decreases cs.len(),
{
    if cs.len() > 0 {
        char_is_scalar(cs[0]);
        lemma_encode_len_ge(cs.drop_first());
    }
}

/// The number of bytes in the UTF-8 encoding of `cs`, counted wide enough
/// for any text.
pub fn utf8_len_wide(cs: &[char]) -> (n: u128)
    ensures
        n as int == encode_utf8(cs@).len(),
{
    let mut total: u128 = 0;
    let mut i: usize = 0;
    assert(cs@.take(0) =~= Seq::<char>::empty());
    while i < cs.len()
        invariant
            i <= cs@.len(),
            total as int == encode_utf8(cs@.take(i as int)).len(),
            total <= 4 * i,
        decreases cs@.len() - i,
    {
        let w = utf8_width(cs[i]);
        proof {
            assert(cs@.take(i + 1) =~= cs@.take(i as int) + seq![cs@[i as int]]);
            lemma_encode_concat(cs@.take(i as int), seq![cs@[i as int]]);
        }
        total = total + w as u128;
        i = i + 1;
    }
    assert(cs@.take(cs@.len() as int) =~= cs@);
    total
}

/// The decimal representation of `v`.
pub fn usize_decimal(v: usize) -> (r: Vec<char>)
    ensures
        r@ == decimal_nat(v as nat),
{
    let mut out: Vec<char> = Vec::new();
    push_decimal_u64(&mut out, v as u64);
    assert(out@ =~= decimal_nat(v as nat));
    out
}

} // verus!
