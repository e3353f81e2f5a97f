//! Reading `#define` constant definitions.
use vstd::prelude::*;
use vstd::string::{StrSliceExecFns, StringSliceAdditionalSpecFns};
use vstd::utf8::{decode_utf8, encode_utf8, is_char_boundary};

use crate::constant_expansion::types::ConstantDef;
use crate::numbers::{
    all_digits, digit_value, digits_value, i64_from_str_radix, i64_parse, parse_int_radix,
    sign_stripped,
};
use crate::pattern::{
    captures_all, captures_view, matches_in_order, regex_captures, regex_compiles, spans_within,
    GroupMatch,
};
use crate::position::{Position, Range};
use crate::text::{chars_of, starts_with, starts_with_str, trim, trim_bounds};

verus! {

/// The pattern of a `#define <value> <name>;` line: the value is group 1, the
/// name group 2.
pub const DEFINE_PATTERN: &'static str = "#define\\s+([^\\n;]+)\\s+([A-Za-z_][A-Za-z0-9_]*)\\s*;";

/// A constant definition as plain values.
pub ghost struct SpecConstantDef {
    pub name: Seq<char>,
    pub value: Seq<char>,
    pub range: Range,
    pub is_simple: bool,
}

impl ConstantDef {
    pub open spec fn view(&self) -> SpecConstantDef {
        SpecConstantDef {
            name: self.name@,
            value: self.value@,
            range: self.range,
            is_simple: self.is_simple,
        }
    }

    /// A copy of this definition.
    pub fn duplicate(&self) -> (r: ConstantDef)
        ensures
            r.view() == self.view(),
    {
        ConstantDef {
            name: self.name.clone(),
            value: self.value.clone(),
            range: self.range,
            is_simple: self.is_simple,
        }
    }
}

pub open spec fn defs_view(v: Seq<ConstantDef>) -> Seq<SpecConstantDef> {
    Seq::new(v.len(), |i: int| v[i].view())
}

/// The number that `s` writes: after trimming white space, `0x`/`0X` starts
/// a hexadecimal number, `0b`/`0B` a binary one, and anything else is read
/// as a decimal number.
pub open spec fn parse_i64_spec(s: Seq<char>) -> Option<int> {
    let t = trim(s);
    if starts_with(t, "0x"@) || starts_with(t, "0X"@) {
        parse_int_radix(t.skip(2), 16)
    } else if starts_with(t, "0b"@) || starts_with(t, "0B"@) {
        parse_int_radix(t.skip(2), 2)
    } else {
        parse_int_radix(t, 10)
    }
}

/// Parses a string as `i64`, in decimal, hexadecimal (`0x`) or binary (`0b`).
pub fn parse_i64(s: &str) -> (r: Result<i64, std::num::ParseIntError>)
    ensures
        r is Ok <==> parse_i64_spec(s@) is Some,
        r matches Ok(v) ==> parse_i64_spec(s@) == Some(v as int),
{
    let cs = chars_of(s);
    let (a, b) = trim_bounds(&cs);
    let t = s.substring_char(a, b);
    let tc = chars_of(t);
    let n = tc.len();
    proof {
        reveal_strlit("0x");
        reveal_strlit("0X");
        reveal_strlit("0b");
        reveal_strlit("0B");
    }
    if starts_with_str(&tc, "0x") || starts_with_str(&tc, "0X") {
        let digits = t.substring_char(2, n);
        i64_from_str_radix(digits, 16)
    } else if starts_with_str(&tc, "0b") || starts_with_str(&tc, "0B") {
        let digits = t.substring_char(2, n);
        i64_from_str_radix(digits, 2)
    } else {
        i64_parse(t)
    }
}

/// A byte that starts a character (no UTF-8 continuation byte).
pub open spec fn is_lead_byte(b: u8) -> bool {
    !(0x80 <= b && b <= 0xbf)
}

/// The line and column reached after the bytes before `offset`: each `\n`
/// starts a new line, and each other character adds a column.
pub open spec fn offset_position(bytes: Seq<u8>, offset: int) -> (int, int)
    decreases offset,
{
    if offset <= 0 {
        (0, 0)
    } else {
        let lc = offset_position(bytes, offset - 1);
        let k = offset - 1;
        if k >= bytes.len() {
            lc
        } else if bytes[k] == 10 {
            (lc.0 + 1, 0)
        } else if is_lead_byte(bytes[k]) {
            (lc.0, lc.1 + 1)
        } else {
            lc
        }
    }
}

proof fn lemma_offset_position_bounds(bytes: Seq<u8>, offset: int)
    ensures
        0 <= offset_position(bytes, offset).0 <= bytes.len(),
        0 <= offset_position(bytes, offset).1 <= bytes.len(),
        offset_position(bytes, offset).0 <= if offset < 0 { 0 } else { offset },
        offset_position(bytes, offset).1 <= if offset < 0 { 0 } else { offset },
    decreases offset,
{
    if offset > 0 {
        lemma_offset_position_bounds(bytes, offset - 1);
    }
}

/// The position of a byte offset as a document position.
pub open spec fn position_at(bytes: Seq<u8>, offset: int) -> Position {
    Position {
        line: offset_position(bytes, offset).0 as u32,
        character: offset_position(bytes, offset).1 as u32,
    }
}

/// The definition that one match of the `#define` pattern gives, if its value
/// and name are not empty.
pub open spec fn def_of_capture(bytes: Seq<u8>, cap: Seq<Option<(int, int, Seq<char>)>>) -> Option<
    SpecConstantDef,
> {
    let value = if cap.len() > 1 && cap[1] is Some {
        (cap[1]->0).2
    } else {
        seq![]
    };
    let name = if cap.len() > 2 && cap[2] is Some {
        (cap[2]->0).2
    } else {
        seq![]
    };
    if name.len() == 0 || value.len() == 0 || cap.len() == 0 || cap[0] is None {
        None
    } else {
        Some(
            SpecConstantDef {
                name,
                value,
                range: Range {
                    start: position_at(bytes, (cap[0]->0).0),
                    end: position_at(bytes, (cap[0]->0).1),
                },
                is_simple: parse_i64_spec(value) is Some,
            },
        )
    }
}

/// The definitions that the matches `caps` give, in order.
pub open spec fn defs_of(bytes: Seq<u8>, caps: Seq<Seq<Option<(int, int, Seq<char>)>>>) -> Seq<
    SpecConstantDef,
>
    decreases caps.len(),
{
    if caps.len() == 0 {
        seq![]
    } else {
        let rest = defs_of(bytes, caps.drop_last());
        match def_of_capture(bytes, caps.last()) {
            Some(d) => rest.push(d),
            None => rest,
        }
    }
}

/// `a` comes no later than `b` in the document.
pub open spec fn pos_le(a: Position, b: Position) -> bool {
    a.line < b.line || (a.line == b.line && a.character <= b.character)
}

/// Every definition has a name and a value, and is simple exactly when its
/// value reads as a number.
pub open spec fn defs_well_formed(defs: Seq<SpecConstantDef>) -> bool {
    forall|i: int|
        0 <= i < defs.len() ==> (#[trigger] defs[i]).name.len() > 0 && defs[i].value.len() > 0
            && defs[i].is_simple == (parse_i64_spec(defs[i].value) is Some)
}

/// Every definition's range starts no later than it ends, and ends no later
/// than the next one starts: the definitions come in document order and do
/// not overlap.
pub open spec fn defs_in_order(defs: Seq<SpecConstantDef>) -> bool {
    &&& forall|i: int| 0 <= i < defs.len() ==> pos_le((#[trigger] defs[i]).range.start, defs[i].range.end)
    &&& forall|i: int, j: int|
        #![trigger defs[i], defs[j]]
        0 <= i && j == i + 1 && j < defs.len() ==> pos_le(defs[i].range.end, defs[j].range.start)
}

proof fn lemma_offset_position_mono(bytes: Seq<u8>, a: int, b: int)
    requires
        0 <= a <= b,
    ensures
        offset_position(bytes, a).0 < offset_position(bytes, b).0 || (offset_position(bytes, a).0
            == offset_position(bytes, b).0 && offset_position(bytes, a).1 <= offset_position(
            bytes,
            b,
        ).1),
    decreases b - a,
{
    if a < b {
        lemma_offset_position_mono(bytes, a, b - 1);
    }
}

proof fn lemma_position_at_mono(bytes: Seq<u8>, a: int, b: int)
    requires
        0 <= a <= b,
        bytes.len() <= u32::MAX,
    ensures
        pos_le(position_at(bytes, a), position_at(bytes, b)),
{
    lemma_offset_position_mono(bytes, a, b);
    lemma_offset_position_bounds(bytes, a);
    lemma_offset_position_bounds(bytes, b);
}

proof fn lemma_defs_of_facts(bytes: Seq<u8>, caps: Seq<Seq<Option<(int, int, Seq<char>)>>>)
    requires
        bytes.len() <= u32::MAX,
    ensures
        defs_well_formed(defs_of(bytes, caps)),
        matches_in_order(caps) && spans_within(caps, bytes.len() as int) ==> defs_in_order(
            defs_of(bytes, caps),
        ) && (defs_of(bytes, caps).len() > 0 ==> pos_le(
            defs_of(bytes, caps).last().range.end,
            position_at(bytes, (caps.last()[0]->0).1),
        )),
    decreases caps.len(),
{
    if caps.len() > 0 {
        let p = caps.drop_last();
        let rest = defs_of(bytes, p);
        let c = caps.last();
        lemma_defs_of_facts(bytes, p);
        let ordered = matches_in_order(caps) && spans_within(caps, bytes.len() as int);
        if ordered {
            assert(matches_in_order(p)) by {
                assert forall|i: int| 0 <= i < p.len() implies (#[trigger] p[i]).len() > 0
                    && p[i][0] is Some by {
                    assert(p[i] == caps[i]);
                }
                assert forall|i: int, j: int|
                    #![trigger p[i], p[j]]
                    0 <= i && j == i + 1 && j < p.len() implies (p[i][0]->0).1 <= (
                    p[j][0]->0).0 by {
                    assert(p[i] == caps[i]);
                    assert(p[j] == caps[j]);
                    assert(caps[i] == caps[i]);
                }
            }
            assert(spans_within(p, bytes.len() as int)) by {
                assert forall|i: int, j: int|
                    #![trigger p[i][j]]
                    0 <= i < p.len() && 0 <= j < p[i].len() && p[i][j] is Some implies 0 <= (
                    p[i][j]->0).0 <= (p[i][j]->0).1 <= bytes.len() by {
                    assert(p[i] == caps[i]);
                }
            }
            let n = caps.len() - 1;
            assert(caps[n] == c);
            assert(c.len() > 0 && c[0] is Some);
            let cs = (c[0]->0).0;
            let ce = (c[0]->0).1;
            assert(0 <= cs <= ce <= bytes.len());
            lemma_position_at_mono(bytes, cs, ce);
            if n > 0 {
                let q = caps[n - 1];
                assert(q == p.last());
                assert(q.len() > 0 && q[0] is Some);
                assert((q[0]->0).1 <= cs);
                assert(0 <= (q[0]->0).0 <= (q[0]->0).1);
                lemma_position_at_mono(bytes, (q[0]->0).1, cs);
                lemma_position_at_mono(bytes, (q[0]->0).1, ce);
            }
        }
        match def_of_capture(bytes, c) {
            Some(d) => {
                let r = rest.push(d);
                assert(defs_of(bytes, caps) == r);
                assert forall|i: int| 0 <= i < r.len() implies (#[trigger] r[i]).name.len() > 0
                    && r[i].value.len() > 0 && r[i].is_simple == (parse_i64_spec(r[i].value) is Some) by {
                    if i < rest.len() {
                        assert(r[i] == rest[i]);
                    }
                }
                if ordered {
                    assert forall|i: int| 0 <= i < r.len() implies pos_le(
                        (#[trigger] r[i]).range.start,
                        r[i].range.end,
                    ) by {
                        if i < rest.len() {
                            assert(r[i] == rest[i]);
                        }
                    }
                    assert forall|i: int, j: int|
                        #![trigger r[i], r[j]]
                        0 <= i && j == i + 1 && j < r.len() implies pos_le(
                        r[i].range.end,
                        r[j].range.start,
                    ) by {
                        if j < rest.len() {
                            assert(r[i] == rest[i]);
                            assert(r[j] == rest[j]);
                        } else {
                            assert(r[i] == rest.last());
                            assert(r[j] == d);
                        }
                    }
                    assert(r.last() == d);
                }
            },
            None => {
                assert(defs_of(bytes, caps) == rest);
                if ordered && rest.len() > 0 {
                    let q = caps[caps.len() - 2];
                    assert(q == p.last());
                }
            },
        }
    }
}

/// The `#define` constants of `source`, in order.
pub open spec fn constant_defs(source: Seq<char>) -> Seq<SpecConstantDef> {
    if regex_compiles(DEFINE_PATTERN@) {
        defs_of(encode_utf8(source), regex_captures(DEFINE_PATTERN@, source))
    } else {
        seq![]
    }
}

/// The first definition named `name`.
pub open spec fn first_named(defs: Seq<SpecConstantDef>, name: Seq<char>) -> Option<SpecConstantDef>
    decreases defs.len(),
{
    if defs.len() == 0 {
        None
    } else if defs[0].name == name {
        Some(defs[0])
    } else {
        first_named(defs.drop_first(), name)
    }
}

/// The byte length of the first `col` characters of `t` (all of `t` when it
/// has fewer).
pub open spec fn prefix_bytes(t: Seq<u8>, col: int) -> int
    decreases t.len(),
{
    if t.len() == 0 {
        0
    } else if is_lead_byte(t[0]) && col <= 0 {
        0
    } else if is_lead_byte(t[0]) {
        1 + prefix_bytes(t.drop_first(), col - 1)
    } else {
        1 + prefix_bytes(t.drop_first(), col)
    }
}

/// The byte offset of a document position, scanning from byte `k` on line
/// `line`: the first character on the position's line, moved on by the
/// position's column; the end of the text when the line is never reached.
pub open spec fn byte_offset_from(bytes: Seq<u8>, target: int, col: int, k: int, line: int) -> int
    decreases bytes.len() - k,
{
    if k >= bytes.len() || k < 0 {
        bytes.len() as int
    } else if is_lead_byte(bytes[k]) && line == target {
        k + prefix_bytes(bytes.skip(k), col)
    } else {
        byte_offset_from(bytes, target, col, k + 1, if bytes[k] == 10 { line + 1 } else { line })
    }
}

pub open spec fn position_offset(bytes: Seq<u8>, p: Position) -> int {
    byte_offset_from(bytes, p.line as int, p.character as int, 0, 0)
}

/// `pos` falls on the name in the definition `d`: the `#define` text that
/// `d`'s range spans matches the pattern, and on `d`'s first line `pos`'s
/// column lies within the span of the name, counted from the column where
/// `d` starts.
pub open spec fn on_definition_name(source: Seq<char>, d: SpecConstantDef, pos: Position) -> bool {
    let bytes = encode_utf8(source);
    let a = position_offset(bytes, d.range.start);
    let b = position_offset(bytes, d.range.end);
    if a <= b <= bytes.len() && is_char_boundary(bytes, a) && is_char_boundary(bytes, b) {
        regex_compiles(DEFINE_PATTERN@) && name_hit(
            d,
            regex_captures(DEFINE_PATTERN@, decode_utf8(bytes.subrange(a, b))),
            pos,
        )
    } else {
        false
    }
}

/// Given the matches `caps` of the pattern in `d`'s own text, `pos` lies on
/// `d`'s first line within the span of the first match's name (group 2),
/// counted from the column where `d` starts.
pub open spec fn name_hit(
    d: SpecConstantDef,
    caps: Seq<Seq<Option<(int, int, Seq<char>)>>>,
    pos: Position,
) -> bool {
    &&& caps.len() > 0
    &&& caps[0].len() > 2
    &&& caps[0][2] is Some
    &&& d.range.start.line == pos.line
    &&& d.range.start.character + (caps[0][2]->0).0 <= pos.character
    &&& pos.character <= d.range.start.character + (caps[0][2]->0).1
}

/// The first of `defs` whose name `pos` falls on.
pub open spec fn first_at(source: Seq<char>, defs: Seq<SpecConstantDef>, pos: Position) -> Option<
    SpecConstantDef,
>
    decreases defs.len(),
{
    if defs.len() == 0 {
        None
    } else if on_definition_name(source, defs[0], pos) {
        Some(defs[0])
    } else {
        first_at(source, defs.drop_first(), pos)
    }
}

/// `str::get` with a byte range: the part of `s` between the two offsets, or
/// `None` when the range is reversed, runs past the end, or cuts a character.
#[verifier::external_body]
pub(crate) fn str_get<'a>(s: &'a str, a: usize, b: usize) -> (r: Option<&'a str>)
    ensures
        r is Some <==> (a <= b <= s.spec_bytes().len() && is_char_boundary(s.spec_bytes(), a as int)
            && is_char_boundary(s.spec_bytes(), b as int)),
        r matches Some(t) ==> t.spec_bytes() == s.spec_bytes().subrange(a as int, b as int),
{
    s.get(a..b)
}

/// Parser for BSV `#define` constant definitions.
pub struct ConstantParser {}

impl Default for ConstantParser {
    fn default() -> (r: Self) {
        Self::new()
    }
}

impl ConstantParser {
    pub fn new() -> (r: Self) {
        ConstantParser {  }
    }

    /// All `#define` constants of `source`, in order.
    pub fn parse(&self, source: &str) -> (r: Vec<ConstantDef>)
        requires
            source.spec_bytes().len() <= u32::MAX,
        ensures
            defs_view(r@) == constant_defs(source@),
            defs_well_formed(defs_view(r@)),
            defs_in_order(defs_view(r@)),
            forall|i: int|
                #![trigger r@[i]]
                0 <= i < r@.len() ==> r@[i].range.start.character <= source.spec_bytes().len()
                    && r@[i].range.start.line <= source.spec_bytes().len(),
    {
        match captures_all(DEFINE_PATTERN, source) {
            Some(caps) => Self::defs_from_captures(source, &caps),
            None => {
                let constants: Vec<ConstantDef> = Vec::new();
                assert(defs_view(constants@) =~= seq![]);
                constants
            },
        }
    }

    /// The definitions that the matches `caps` of the `#define` pattern in
    /// `source` give, in order: each match with a value (group 1) and a name
    /// (group 2), both non-empty, spanning the document range of its whole
    /// match (group 0).
    pub fn defs_from_captures(source: &str, caps: &Vec<Vec<Option<GroupMatch>>>) -> (r: Vec<
        ConstantDef,
    >)
        requires
            source.spec_bytes().len() <= u32::MAX,
        ensures
            defs_view(r@) == defs_of(source.spec_bytes(), captures_view(caps@)),
            defs_well_formed(defs_view(r@)),
            matches_in_order(captures_view(caps@)) && spans_within(
                captures_view(caps@),
                source.spec_bytes().len() as int,
            ) ==> defs_in_order(defs_view(r@)),
            forall|i: int|
                #![trigger r@[i]]
                0 <= i < r@.len() ==> r@[i].range.start.character <= source.spec_bytes().len()
                    && r@[i].range.start.line <= source.spec_bytes().len(),
    {
        let mut constants: Vec<ConstantDef> = Vec::new();
        let bytes = source.as_bytes();
        let ghost bs = source.spec_bytes();
        let ghost cv = captures_view(caps@);
        let mut i: usize = 0;
        assert(cv.take(0) =~= seq![]);
        while i < caps.len()
            invariant
                i <= caps@.len(),
                bytes@ == bs,
                bs.len() <= u32::MAX,
                cv == captures_view(caps@),
                defs_view(constants@) == defs_of(bs, cv.take(i as int)),
                forall|j: int|
                    #![trigger constants@[j]]
                    0 <= j < constants@.len() ==> constants@[j].range.start.character <= bs.len()
                        && constants@[j].range.start.line <= bs.len(),
            decreases caps@.len() - i,
        {
            let cap = &caps[i];
            proof {
                assert(cv.take(i + 1).drop_last() =~= cv.take(i as int));
                assert(cv.take(i + 1).last() == cv[i as int]);
                assert(cv[i as int].len() == cap@.len());
            }
            let value: Option<&String> = if cap.len() > 1 {
                match &cap[1] {
                    Some(m) => Some(&m.text),
                    None => None,
                }
            } else {
                None
            };
            let name: Option<&String> = if cap.len() > 2 {
                match &cap[2] {
                    Some(m) => Some(&m.text),
                    None => None,
                }
            } else {
                None
            };
            let ghost old_c = constants@;
            if let (Some(v), Some(n)) = (value, name) {
                if !v.as_str().is_empty() && !n.as_str().is_empty() && cap.len() > 0 {
                    if let Some(full) = &cap[0] {
                        let (sl, sc) = Self::byte_offset_to_position(bytes, full.start);
                        let (el, ec) = Self::byte_offset_to_position(bytes, full.end);
                        let is_simple = parse_i64(v.as_str()).is_ok();
                        let d = ConstantDef {
                            name: n.clone(),
                            value: v.clone(),
                            range: Range {
                                start: Position { line: sl, character: sc },
                                end: Position { line: el, character: ec },
                            },
                            is_simple,
                        };
                        proof {
                            lemma_offset_position_bounds(bs, full.start as int);
                        }
                        constants.push(d);
                        proof {
                            assert(defs_view(constants@) =~= defs_view(old_c).push(d.view()));
                            assert forall|j: int|
                                #![trigger constants@[j]]
                                0 <= j < constants@.len() implies constants@[j].range.start.character
                                <= bs.len() && constants@[j].range.start.line <= bs.len() by {
                                if j < old_c.len() {
                                    assert(constants@[j] == old_c[j]);
                                }
                            }
                        }
                    }
                }
            }
            proof {
                assert(defs_view(constants@) == defs_of(bs, cv.take(i + 1)));
            }
            i = i + 1;
        }
        assert(cv.take(caps@.len() as int) =~= cv);
        proof {
            lemma_defs_of_facts(bs, cv);
        }
        constants
    }

    /// Converts a byte offset into a line and column.
    fn byte_offset_to_position(bytes: &[u8], offset: usize) -> (r: (u32, u32))
        requires
            bytes@.len() <= u32::MAX,
        ensures
            r.0 as int == offset_position(bytes@, offset as int).0,
            r.1 as int == offset_position(bytes@, offset as int).1,
    {
        let mut line: u32 = 0;
        let mut col: u32 = 0;
        let mut k: usize = 0;
        while k < offset && k < bytes.len()
            invariant
                k <= bytes@.len(),
                k <= offset,
                bytes@.len() <= u32::MAX,
                (line as int, col as int) == offset_position(bytes@, k as int),
            decreases bytes@.len() - k,
        {
            proof {
                lemma_offset_position_bounds(bytes@, k as int);
            }
            let b = bytes[k];
            if b == 10 {
                line = line + 1;
                col = 0;
            } else if !(0x80 <= b && b <= 0xbf) {
                col = col + 1;
            }
            k = k + 1;
        }
        proof {
            if k < offset {
                lemma_offset_position_beyond(bytes@, k as int, offset as int);
            }
        }
        (line, col)
    }

    /// The definition whose name `position` falls on, if any.
    pub fn find_constant_at_position(&self, source: &str, position: Position) -> (r: Option<
        ConstantDef,
    >)
        requires
            source.spec_bytes().len() <= u32::MAX,
        ensures
            r matches Some(d) ==> first_at(source@, constant_defs(source@), position) == Some(
                d.view(),
            ),
            r is None ==> first_at(source@, constant_defs(source@), position) is None,
    {
        let constants = self.parse(source);
        let bytes = source.as_bytes();
        let ghost bs = source.spec_bytes();
        let ghost defs = constant_defs(source@);
        let mut i: usize = 0;
        assert(defs.skip(0) =~= defs);
        while i < constants.len()
            invariant
                i <= constants@.len(),
                bytes@ == bs,
                bs == source.spec_bytes(),
                bs.len() <= u32::MAX,
                defs == constant_defs(source@),
                defs_view(constants@) == defs,
                forall|j: int|
                    #![trigger constants@[j]]
                    0 <= j < constants@.len() ==> constants@[j].range.start.character <= bs.len(),
                first_at(source@, defs, position) == first_at(source@, defs.skip(i as int), position),
            decreases constants@.len() - i,
        {
            let def = &constants[i];
            assert(defs[i as int] == def.view());
            assert(def.range.start.character <= bs.len());
            let search_start = position_to_byte_offset(bytes, def.range.start);
            let search_end = position_to_byte_offset(bytes, def.range.end);
            let mut hit = false;
            if let Some(define_text) = str_get(source, search_start, search_end) {
                proof {
                    vstd::utf8::encode_utf8_decode_utf8(define_text@);
                    assert(define_text@ == decode_utf8(bs.subrange(
                        search_start as int,
                        search_end as int,
                    )));
                }
                if let Some(caps) = captures_all(DEFINE_PATTERN, define_text) {
                    hit = Self::cursor_on_name(def, &caps, position);
                }
            }
            proof {
                assert(defs.skip(i as int)[0] == defs[i as int]);
                assert(defs.skip(i as int).drop_first() =~= defs.skip(i + 1));
                assert(hit == on_definition_name(source@, defs[i as int], position));
            }
            if hit {
                return Some(def.duplicate());
            }
            i = i + 1;
        }
        None
    }

    /// Whether `position` lies on the name of the definition `d`, given the
    /// matches `caps` of the `#define` pattern in `d`'s own text.
    pub fn cursor_on_name(d: &ConstantDef, caps: &Vec<Vec<Option<GroupMatch>>>, position: Position) -> (b:
        bool)
        ensures
            b == name_hit(d.view(), captures_view(caps@), position),
    {
        proof {
            let cv = captures_view(caps@);
            if caps@.len() > 0 {
                assert(cv[0].len() == caps@[0]@.len());
            }
        }
        if caps.len() > 0 && caps[0].len() > 2 {
            if let Some(name_match) = &caps[0][2] {
                proof {
                    let cv = captures_view(caps@);
                    assert(cv[0][2] == Some(
                        (name_match.start as int, name_match.end as int, name_match.text@),
                    ));
                }
                if d.range.start.line != position.line || position.character
                    < d.range.start.character {
                    return false;
                }
                let offset: usize = (position.character - d.range.start.character) as usize;
                return name_match.start <= offset && offset <= name_match.end;
            }
        }
        false
    }

    /// The first definition named `name`.
    pub fn find_constant_by_name(&self, source: &str, name: &str) -> (r: Option<ConstantDef>)
        requires
            source.spec_bytes().len() <= u32::MAX,
        ensures
            r matches Some(d) ==> first_named(constant_defs(source@), name@) == Some(d.view()),
            r is None ==> first_named(constant_defs(source@), name@) is None,
    {
        let constants = self.parse(source);
        let ghost defs = constant_defs(source@);
        let mut i: usize = 0;
        assert(defs.skip(0) =~= defs);
        while i < constants.len()
            invariant
                i <= constants@.len(),
                defs == constant_defs(source@),
                defs_view(constants@) == defs,
                first_named(defs, name@) == first_named(defs.skip(i as int), name@),
            decreases constants@.len() - i,
        {
            assert(defs[i as int] == constants@[i as int].view());
            assert(defs.skip(i as int)[0] == defs[i as int]);
            assert(defs.skip(i as int).drop_first() =~= defs.skip(i + 1));
            if str_eq_string(&constants[i].name, name) {
                assert(first_named(defs.skip(i as int), name@) == Some(defs[i as int]));
                return Some(constants[i].duplicate());
            }
            i = i + 1;
        }
        None
    }
}

fn str_eq_string(a: &String, b: &str) -> (r: bool)
    ensures
        r == (a@ == b@),
{
    crate::text::str_eq(a.as_str(), b)
}

proof fn lemma_offset_position_beyond(bytes: Seq<u8>, k: int, offset: int)
    requires
        0 <= k == bytes.len(),
        k <= offset,
    ensures
        offset_position(bytes, offset) == offset_position(bytes, k),
    decreases offset - k,
{
    if offset > k {
        lemma_offset_position_beyond(bytes, k, offset - 1);
    }
}

/// Converts a document position into a byte offset.
fn position_to_byte_offset(bytes: &[u8], position: Position) -> (r: usize)
    ensures
        r as int == position_offset(bytes@, position),
        r <= bytes@.len(),
{
    let mut k: usize = 0;
    let mut line: u64 = 0;
    while k < bytes.len()
        invariant
            k <= bytes@.len(),
            line <= k,
            position_offset(bytes@, position) == byte_offset_from(
                bytes@,
                position.line as int,
                position.character as int,
                k as int,
                line as int,
            ),
        decreases bytes@.len() - k,
    {
        let b = bytes[k];
        if !(0x80 <= b && b <= 0xbf) && line == position.line as u64 {
            let n = prefix_bytes_exec(bytes, k, position.character as usize);
            return k + n;
        }
        if b == 10 {
            line = line + 1;
        }
        k = k + 1;
    }
    k
}

/// The byte length of the first `col` characters of `bytes[from..]`.
fn prefix_bytes_exec(bytes: &[u8], from: usize, col: usize) -> (r: usize)
    requires
        from <= bytes@.len(),
    ensures
        r as int == prefix_bytes(bytes@.skip(from as int), col as int),
        from + r <= bytes@.len(),
{
    let mut k = from;
    let mut c = col;
    while k < bytes.len()
        invariant
            from <= k <= bytes@.len(),
            c <= col,
            prefix_bytes(bytes@.skip(from as int), col as int) == (k - from) + prefix_bytes(
                bytes@.skip(k as int),
                c as int,
            ),
        decreases bytes@.len() - k,
    {
        let b = bytes[k];
        proof {
            assert(bytes@.skip(k as int)[0] == b);
            assert(bytes@.skip(k as int).drop_first() =~= bytes@.skip(k + 1));
        }
        if !(0x80 <= b && b <= 0xbf) {
            if c == 0 {
                return k - from;
            }
            c = c - 1;
        }
        k = k + 1;
    }
    k - from
}

proof fn lemma_digit_char(d: int)
    requires
        0 <= d < 10,
    ensures
        digit_value(crate::text::digit_char(d)) == d,
        '0' <= crate::text::digit_char(d) <= '9',
{
    assert(digit_value(crate::text::digit_char(d)) == d);
}

proof fn lemma_decimal_digits(n: nat)
    ensures
        crate::text::decimal_nat(n).len() > 0,
        forall|i: int|
            0 <= i < crate::text::decimal_nat(n).len() ==> '0' <= #[trigger] crate::text::decimal_nat(
                n,
            )[i] <= '9',
        digits_value(crate::text::decimal_nat(n), 10) == n,
    decreases n,
{
    let s = crate::text::decimal_nat(n);
    if n < 10 {
        lemma_digit_char(n as int);
        assert(s.drop_last() =~= Seq::<char>::empty());
        assert(digits_value(s.drop_last(), 10) == 0);
        assert(s.last() == crate::text::digit_char(n as int));
    } else {
        lemma_decimal_digits(n / 10);
        lemma_digit_char((n % 10) as int);
        let h = crate::text::decimal_nat(n / 10);
        assert(s.drop_last() =~= h);
        assert(s.last() == crate::text::digit_char((n % 10) as int));
        assert(digits_value(s, 10) == digits_value(h, 10) * 10 + digit_value(s.last()));
        assert((n / 10) * 10 + n % 10 == n);
        assert forall|i: int| 0 <= i < s.len() implies '0' <= #[trigger] s[i] <= '9' by {
            if i < h.len() {
                assert(s[i] == h[i]);
            }
        }
    }
}

proof fn lemma_trim_digits(t: Seq<char>)
    requires
        t.len() > 0,
        !crate::text::is_ws(t[0]),
        !crate::text::is_ws(t.last()),
    ensures
        trim(t) == t,
{
    assert(crate::text::trim_start(t) == t);
    assert(crate::text::trim_end(t) == t);
}

/// `parse_i64` reads back the decimal text that `i64`'s `to_string` writes.
pub proof fn parse_i64_reads_decimal(v: i64)
    ensures
        parse_i64_spec(crate::text::decimal(v as int)) == Some(v as int),
{
    let t = crate::text::decimal(v as int);
    let m: nat = if v < 0 {
        (-(v as int)) as nat
    } else {
        v as nat
    };
    let dn = crate::text::decimal_nat(m);
    lemma_decimal_digits(m);
    if v < 0 {
        assert(t == seq!['-'] + dn);
        assert(t.last() == dn.last());
        assert(t.drop_first() =~= dn);
    } else {
        assert(t == dn);
    }
    lemma_trim_digits(t);
    reveal_strlit("0x");
    reveal_strlit("0X");
    reveal_strlit("0b");
    reveal_strlit("0B");
    if t.len() >= 2 {
        assert(t.take(2)[1] == t[1]);
        if v >= 0 {
            assert('0' <= t[1] <= '9');
        }
    }
    assert(!starts_with(t, "0x"@));
    assert(!starts_with(t, "0X"@));
    assert(!starts_with(t, "0b"@));
    assert(!starts_with(t, "0B"@));
    assert forall|i: int| 0 <= i < dn.len() implies digit_value(#[trigger] dn[i]) < 10 by {
        assert('0' <= dn[i] <= '9');
    }
}

/// The digit of value `d` in bases up to 36: `0`-`9`, then letters, upper
/// or lower case.
pub open spec fn radix_digit_char(d: int, upper: bool) -> char {
    if d < 10 {
        ('0' as u32 + d) as char
    } else if upper {
        ('A' as u32 + (d - 10)) as char
    } else {
        ('a' as u32 + (d - 10)) as char
    }
}

/// `n` written in base `radix` (from 2), most significant digit first, as
/// `{:x}`, `{:X}` and `{:b}` write it.
pub open spec fn radix_text(n: nat, radix: nat, upper: bool) -> Seq<char>
    decreases n,
{
    if n < radix || radix < 2 {
        seq![radix_digit_char(n as int, upper)]
    } else {
        proof {
            assert(n / radix < n) by (nonlinear_arith)
                requires
                    radix >= 2,
                    n >= radix,
            ;
        }
        radix_text(n / radix, radix, upper) + seq![radix_digit_char((n % radix) as int, upper)]
    }
}

/// Every character of `s` is white space.
pub open spec fn all_ws(s: Seq<char>) -> bool {
    forall|i: int| 0 <= i < s.len() ==> crate::text::is_ws(#[trigger] s[i])
}

proof fn lemma_radix_digit(d: int, upper: bool)
    requires
        0 <= d < 36,
    ensures
        digit_value(radix_digit_char(d, upper)) == d,
        ('0' <= radix_digit_char(d, upper) <= '9') || ('a' <= radix_digit_char(d, upper) <= 'z')
            || ('A' <= radix_digit_char(d, upper) <= 'Z'),
{
}

proof fn lemma_radix_text(n: nat, radix: nat, upper: bool)
    requires
        2 <= radix <= 36,
    ensures
        radix_text(n, radix, upper).len() > 0,
        all_digits(radix_text(n, radix, upper), radix as int),
        forall|i: int|
            0 <= i < radix_text(n, radix, upper).len() ==> ('0' <= #[trigger] radix_text(
                n,
                radix,
                upper,
            )[i] <= '9') || ('a' <= radix_text(n, radix, upper)[i] <= 'z') || ('A' <= radix_text(
                n,
                radix,
                upper,
            )[i] <= 'Z'),
        digits_value(radix_text(n, radix, upper), radix as int) == n,
    decreases n,
{
    let s = radix_text(n, radix, upper);
    if n < radix {
        lemma_radix_digit(n as int, upper);
        assert(s.drop_last() =~= Seq::<char>::empty());
        assert(digits_value(s.drop_last(), radix as int) == 0);
    } else {
        lemma_radix_text(n / radix, radix, upper);
        lemma_radix_digit((n % radix) as int, upper);
        let h = radix_text(n / radix, radix, upper);
        assert(s.drop_last() =~= h);
        assert(digits_value(s, radix as int) == digits_value(h, radix as int) * radix
            + digit_value(s.last()));
        assert((n / radix) * radix + n % radix == n) by (nonlinear_arith)
            requires
                radix >= 2,
        ;
        assert forall|i: int| 0 <= i < s.len() implies #[trigger] digit_value(s[i]) < radix by {
            if i < h.len() {
                assert(s[i] == h[i]);
            }
        }
        assert forall|i: int| 0 <= i < s.len() implies ('0' <= #[trigger] s[i] <= '9') || ('a'
            <= s[i] <= 'z') || ('A' <= s[i] <= 'Z') by {
            if i < h.len() {
                assert(s[i] == h[i]);
            }
        }
    }
}

proof fn lemma_trim_start_padded(pre: Seq<char>, t: Seq<char>)
    requires
        all_ws(pre),
        t.len() > 0,
        !crate::text::is_ws(t[0]),
    ensures
        crate::text::trim_start(pre + t) == t,
    decreases pre.len(),
{
    if pre.len() > 0 {
        assert((pre + t)[0] == pre[0]);
        assert((pre + t).drop_first() =~= pre.drop_first() + t);
        lemma_trim_start_padded(pre.drop_first(), t);
    } else {
        assert(pre + t =~= t);
    }
}

proof fn lemma_trim_end_padded(t: Seq<char>, post: Seq<char>)
    requires
        all_ws(post),
        t.len() > 0,
        !crate::text::is_ws(t.last()),
    ensures
        crate::text::trim_end(t + post) == t,
    decreases post.len(),
{
    if post.len() > 0 {
        assert((t + post).last() == post.last());
        assert((t + post).drop_last() =~= t + post.drop_last());
        lemma_trim_end_padded(t, post.drop_last());
    } else {
        assert(t + post =~= t);
    }
}

/// White space around a number's text changes nothing of what `parse_i64`
/// reads.
pub proof fn parse_i64_ignores_surrounding_white_space(pre: Seq<char>, t: Seq<char>, post: Seq<char>)
    requires
        all_ws(pre),
        all_ws(post),
        t.len() > 0,
        !crate::text::is_ws(t[0]),
        !crate::text::is_ws(t.last()),
    ensures
        parse_i64_spec(pre + t + post) == parse_i64_spec(t),
{
    lemma_trim_start_padded(pre, t + post);
    assert((t + post)[0] == t[0]);
    assert(pre + t + post =~= pre + (t + post));
    lemma_trim_end_padded(t, post);
    let e: Seq<char> = seq![];
    lemma_trim_start_padded(e, t);
    lemma_trim_end_padded(t, e);
    assert(e + t =~= t);
    assert(t + e =~= t);
}

proof fn lemma_prefixed_reads(v: i64, p: Seq<char>, radix: nat, upper: bool)
    requires
        v >= 0,
        2 <= radix <= 36,
        p.len() == 2,
        p[0] == '0',
    ensures
        ({
            let h = radix_text(v as nat, radix, upper);
            let s = p + h;
            &&& trim(s) == s
            &&& s.skip(2) == h
            &&& parse_int_radix(h, radix as int) == Some(v as int)
        }),
{
    let h = radix_text(v as nat, radix, upper);
    let s = p + h;
    lemma_radix_text(v as nat, radix, upper);
    assert(s.skip(2) =~= h);
    assert(s[0] == '0');
    assert(s.last() == h.last());
    assert(('0' <= h[0] <= '9') || ('a' <= h[0] <= 'z') || ('A' <= h[0] <= 'Z'));
    assert(('0' <= h.last() <= '9') || ('a' <= h.last() <= 'z') || ('A' <= h.last() <= 'Z'));
    let e: Seq<char> = seq![];
    lemma_trim_start_padded(e, s);
    lemma_trim_end_padded(s, e);
    assert(e + s =~= s);
    assert(s + e =~= s);
    assert(sign_stripped(h) == h);
}

/// `parse_i64` reads back a number that is not negative, written in
/// hexadecimal after `0x` (lower case digits) or `0X` (upper case digits),
/// and written in binary after `0b` or `0B`.
pub proof fn parse_i64_reads_hex_and_binary(v: i64)
    requires
        v >= 0,
    ensures
        parse_i64_spec("0x"@ + radix_text(v as nat, 16, false)) == Some(v as int),
        parse_i64_spec("0X"@ + radix_text(v as nat, 16, true)) == Some(v as int),
        parse_i64_spec("0b"@ + radix_text(v as nat, 2, false)) == Some(v as int),
        parse_i64_spec("0B"@ + radix_text(v as nat, 2, false)) == Some(v as int),
{
    reveal_strlit("0x");
    reveal_strlit("0X");
    reveal_strlit("0b");
    reveal_strlit("0B");
    lemma_prefixed_reads(v, "0x"@, 16, false);
    lemma_prefixed_reads(v, "0X"@, 16, true);
    lemma_prefixed_reads(v, "0b"@, 2, false);
    lemma_prefixed_reads(v, "0B"@, 2, false);
    let a = "0x"@ + radix_text(v as nat, 16, false);
    let b = "0X"@ + radix_text(v as nat, 16, true);
    let c = "0b"@ + radix_text(v as nat, 2, false);
    let d = "0B"@ + radix_text(v as nat, 2, false);
    assert(a.take(2) =~= "0x"@);
    assert(b.take(2) =~= "0X"@);
    assert(c.take(2) =~= "0b"@);
    assert(d.take(2) =~= "0B"@);
    assert(!starts_with(b, "0x"@)) by {
        assert(b.take(2)[1] != "0x"@[1]);
    }
    assert(!starts_with(c, "0x"@) && !starts_with(c, "0X"@)) by {
        assert(c.take(2)[1] != "0x"@[1]);
        assert(c.take(2)[1] != "0X"@[1]);
    }
    assert(!starts_with(d, "0x"@) && !starts_with(d, "0X"@) && !starts_with(d, "0b"@)) by {
        assert(d.take(2)[1] != "0x"@[1]);
        assert(d.take(2)[1] != "0X"@[1]);
        assert(d.take(2)[1] != "0b"@[1]);
    }
}

} // verus!
