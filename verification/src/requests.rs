//! What the server answers to an editor's requests: the word under the
//! cursor, where a name is defined, the symbols a workspace search finds,
//! and the text of a hover.
use vstd::prelude::*;
use vstd::string::StringSliceAdditionalSpecFns;
use vstd::utf8::{decode_utf8, encode_utf8, encode_utf8_decode_utf8, is_char_boundary};

use crate::constant_expansion::parser::{
    constant_defs, defs_view, first_at, first_named, str_get, ConstantParser, SpecConstantDef,
};
use crate::constant_expansion::types::{trace_defined, trace_text, ConstantDef, ExpansionResult};
use crate::numbers::{char_alphanumeric, char_is_alphanumeric};
use crate::position::{Position, Range};
use crate::symbols::{
    entry_or_empty, first_containing, flatten, lists_entries, named_symbols, Symbol, SymbolKind,
    SymbolTable,
};
use crate::text::{
    append_chars, append_str, chars_of, contains_seq, decimal, i64_decimal, nth_line,
};
use crate::diagnostics::{collectable, diagnostics_of, diagnostics_view, DiagnosticCollector};
use crate::parser::outline::{
    extract_symbols, fresh_symbol, symbol_view, symbols_of, symbols_view, SpecSymbol,
};
use crate::syntax::SyntaxNode;
use crate::utils::get_line_content;

verus! {

/// A character of a word: alphanumeric or `_`.
pub open spec fn is_word_char(c: char) -> bool {
    char_alphanumeric(c) || c == '_'
}

/// Where the word that reaches up to index `k` starts: `k` moved left over
/// word characters.
pub open spec fn scan_left(cs: Seq<char>, k: int) -> int
    decreases k,
{
    if k > 0 && k - 1 < cs.len() && is_word_char(cs[k - 1]) {
        scan_left(cs, k - 1)
    } else {
        k
    }
}

/// Where the word from index `k` ends: `k` moved right over word
/// characters.
pub open spec fn scan_right(cs: Seq<char>, k: int) -> int
    decreases cs.len() - k,
{
    if 0 <= k < cs.len() && is_word_char(cs[k]) {
        scan_right(cs, k + 1)
    } else {
        k
    }
}

/// The word at `character` in `line`: none when `character` is not below
/// the line's length in bytes; else the word characters around it, found by
/// character index and cut out of the line's bytes.
pub open spec fn word_at(line: Seq<char>, character: int) -> Option<Seq<char>> {
    let b = encode_utf8(line);
    let s = scan_left(line, character);
    let e = scan_right(line, character);
    if character >= b.len() {
        None
    } else if s < e {
        Some(decode_utf8(b.subrange(s, e)))
    } else {
        None
    }
}

/// The word at `character` can be cut out of `line`: both of its ends fall
/// on character boundaries of the line's bytes.
pub open spec fn word_defined(line: Seq<char>, character: int) -> bool {
    let b = encode_utf8(line);
    let s = scan_left(line, character);
    let e = scan_right(line, character);
    character < b.len() && s < e ==> is_char_boundary(b, s) && is_char_boundary(b, e)
}

proof fn lemma_scan_bounds(cs: Seq<char>, k: int)
    requires
        0 <= k,
    ensures
        0 <= scan_left(cs, k) <= k,
        k <= scan_right(cs, k),
        scan_right(cs, k) <= k || scan_right(cs, k) <= cs.len(),
    decreases cs.len() - k,
{
    lemma_scan_left_bounds(cs, k);
    if 0 <= k < cs.len() && is_word_char(cs[k]) {
        lemma_scan_bounds(cs, k + 1);
    }
}

proof fn lemma_scan_left_bounds(cs: Seq<char>, k: int)
    requires
        0 <= k,
    ensures
        0 <= scan_left(cs, k) <= k,
    decreases k,
{
    if k > 0 && k - 1 < cs.len() && is_word_char(cs[k - 1]) {
        lemma_scan_left_bounds(cs, k - 1);
    }
}

fn is_word_char_exec(c: char) -> (r: bool)
    ensures
        r == is_word_char(c),
{
    char_is_alphanumeric(c) || c == '_'
}

/// Where the word that reaches up to `character` starts.
pub fn find_word_start(line: &str, character: usize) -> (r: usize)
    ensures
        r as int == scan_left(line@, character as int),
{
    let cs = chars_of(line);
    let mut start = character;
    while start > 0 && start - 1 < cs.len() && is_word_char_exec(cs[start - 1])
        invariant
            start <= character,
            cs@ == line@,
            scan_left(cs@, character as int) == scan_left(cs@, start as int),
        decreases start,
    {
        start = start - 1;
    }
    start
}

fn find_word_end(cs: &Vec<char>, character: usize) -> (r: usize)
    ensures
        r as int == scan_right(cs@, character as int),
{
    let mut end = character;
    while end < cs.len() && is_word_char_exec(cs[end])
        invariant
            character <= end,
            scan_right(cs@, character as int) == scan_right(cs@, end as int),
        decreases cs@.len() - end,
    {
        end = end + 1;
    }
    end
}

/// Whether the word at `character` can be cut out of `line`.
pub fn can_extract_word(line: &str, character: usize) -> (r: bool)
    ensures
        r == word_defined(line@, character as int),
{
    let cs = chars_of(line);
    let blen = crate::text::utf8_len_wide(&cs);
    let start = find_word_start(line, character);
    let end = find_word_end(&cs, character);
    if (character as u128) < blen && start < end {
        line.is_char_boundary(start) && line.is_char_boundary(end)
    } else {
        true
    }
}

/// The word at `character` in `line`, if the cursor is on one.
pub fn extract_word_at_position(line: &str, character: usize) -> (r: Option<String>)
    requires
        word_defined(line@, character as int),
    ensures
        r matches Some(w) ==> word_at(line@, character as int) == Some(w@),
        r matches Some(w) ==> encode_utf8(w@).len() == scan_right(line@, character as int)
            - scan_left(line@, character as int),
        r is Some ==> scan_right(line@, character as int) <= usize::MAX,
        r is None ==> word_at(line@, character as int) is None,
{
    let cs = chars_of(line);
    let blen = crate::text::utf8_len_wide(&cs);
    if (character as u128) >= blen {
        return None;
    }
    let start = find_word_start(line, character);
    let end = find_word_end(&cs, character);
    proof {
        lemma_scan_bounds(line@, character as int);
        crate::text::lemma_encode_len_ge(line@);
    }
    if start < end {
        match str_get(line, start, end) {
            Some(t) => {
                proof {
                    encode_utf8_decode_utf8(t@);
                }
                Some(String::from_str(t))
            },
            None => None,
        }
    } else {
        None
    }
}

/// A place in a document.
#[derive(Debug, Clone)]
pub struct Location {
    pub uri: String,
    pub range: Range,
}

/// Where a symbol is defined: its own document, or `uri` when it has none.
pub open spec fn symbol_location(s: Symbol, uri: Seq<char>) -> (Seq<char>, Range) {
    (
        match s.uri {
            Some(u) => u@,
            None => uri,
        },
        s.range,
    )
}

/// The definition found by name: the first symbol of that name, when it
/// knows its document.
pub open spec fn named_location(ns: Seq<Symbol>) -> Option<(Seq<char>, Range)> {
    if ns.len() > 0 && ns[0].uri is Some {
        Some((ns[0].uri->0@, ns[0].range))
    } else {
        None
    }
}

/// The word under the cursor in `text`, when the cursor's line exists.
pub open spec fn word_under(text: Seq<char>, position: Position) -> Option<Seq<char>> {
    match nth_line(text, position.line as int) {
        Some(l) => word_at(l, position.character as int),
        None => None,
    }
}

/// The word under the cursor can be cut out of its line.
pub open spec fn word_under_defined(text: Seq<char>, position: Position) -> bool {
    match nth_line(text, position.line as int) {
        Some(l) => word_defined(l, position.character as int),
        None => true,
    }
}

/// The search by name can cut the word under the cursor out of its line,
/// when it comes to that search.
pub open spec fn goto_defined(
    symbols: Map<Seq<char>, Seq<Symbol>>,
    uri: Seq<char>,
    position: Position,
    text: Option<&str>,
) -> bool {
    first_containing(entry_or_empty(symbols, uri), position) is None && text is Some
        ==> word_under_defined(text->0@, position)
}

/// Whether `goto_definition` can answer for these arguments.
pub fn can_goto_definition(table: &SymbolTable, uri: &str, position: Position, text: Option<&str>) -> (r:
    bool)
    ensures
        r == goto_defined(table.symbols_view(), uri@, position, text),
{
    if table.find_symbol_at_position(uri, position).is_some() {
        return true;
    }
    match text {
        None => true,
        Some(t) => match get_line_content(t, position.line as usize) {
            None => true,
            Some(line) => can_extract_word(line, position.character as usize),
        },
    }
}

pub open spec fn location_view(r: Option<Location>) -> Option<(Seq<char>, Range)> {
    match r {
        Some(l) => Some((l.uri@, l.range)),
        None => None,
    }
}

/// Where the name at `position` in the document `uri` is defined: the
/// first of the document's symbols whose range holds the position; else,
/// given the document's text, the first symbol in the table named like the
/// word under the cursor, when that symbol knows its document.
pub fn goto_definition(table: &SymbolTable, uri: &str, position: Position, text: Option<&str>) -> (r:
    Option<Location>)
    requires
        goto_defined(table.symbols_view(), uri@, position, text),
    ensures
        first_containing(entry_or_empty(table.symbols_view(), uri@), position) matches Some(s)
            ==> location_view(r) == Some(symbol_location(s, uri@)),
        first_containing(entry_or_empty(table.symbols_view(), uri@), position) is None ==> (
        match text {
            None => r is None,
            Some(t) => match word_under(t@, position) {
                None => r is None,
                Some(w) => exists|e: Seq<(Seq<char>, Seq<Symbol>)>|
                    lists_entries(e, table.symbols_view()) && location_view(r) == named_location(
                        named_symbols(flatten(e), w),
                    ),
            },
        }),
{
    if let Some(symbol) = table.find_symbol_at_position(uri, position) {
        let u = match symbol.uri {
            Some(u) => u,
            None => String::from_str(uri),
        };
        return Some(Location { uri: u, range: symbol.range });
    }
    let current = match text {
        Some(t) => t,
        None => return None,
    };
    let line = match get_line_content(current, position.line as usize) {
        Some(l) => l,
        None => return None,
    };
    let word = match extract_word_at_position(line, position.character as usize) {
        Some(w) => w,
        None => return None,
    };
    let symbols = table.find_symbol_by_name(word.as_str());
    if symbols.len() > 0 {
        let first = &symbols[0];
        if let Some(symbol_uri) = &first.uri {
            return Some(Location { uri: symbol_uri.clone(), range: first.range });
        }
    }
    None
}

/// `str::to_lowercase`: the Unicode lowercase mapping, applied character by
/// character with the context rules of the standard library.
pub uninterp spec fn lowercase(s: Seq<char>) -> Seq<char>;

/// `str::to_lowercase`.
#[verifier::external_body]
fn to_lowercase(s: &str) -> (r: String)
    ensures
        r@ == lowercase(s@),
{
    s.to_lowercase()
}

/// A workspace search for `query` finds the symbol: it knows its document,
/// and its lowercased name holds the lowercased query.
pub open spec fn matches_query(s: Symbol, query: Seq<char>) -> bool {
    s.uri is Some && contains_seq(lowercase(s.name@), lowercase(query))
}

/// Where a symbol goes among symbols sorted by name: after every symbol
/// whose name is not greater.
pub open spec fn insert_by_name(sorted: Seq<Symbol>, x: Symbol) -> Seq<Symbol>
    decreases sorted.len(),
{
    if sorted.len() == 0 {
        seq![x]
    } else if crate::parser::references::text_le(sorted.last().name@, x.name@) {
        sorted.push(x)
    } else {
        insert_by_name(sorted.drop_last(), x).push(sorted.last())
    }
}

/// `s` sorted by name, keeping the order of symbols with equal names.
pub open spec fn sort_by_name(s: Seq<Symbol>) -> Seq<Symbol>
    decreases s.len(),
{
    if s.len() == 0 {
        seq![]
    } else {
        insert_by_name(sort_by_name(s.drop_last()), s.last())
    }
}

/// The symbols a workspace search finds, in order.
pub open spec fn query_matches(all: Seq<Symbol>, query: Seq<char>) -> Seq<Symbol> {
    all.filter(|s: Symbol| matches_query(s, query))
}

proof fn lemma_insert_by_name(sorted: Seq<Symbol>, x: Symbol, j: int)
    requires
        0 <= j <= sorted.len(),
        forall|k: int|
            j <= k < sorted.len() ==> !crate::parser::references::text_le(
                #[trigger] sorted[k].name@,
                x.name@,
            ),
        j == 0 || crate::parser::references::text_le(sorted[j - 1].name@, x.name@),
    ensures
        insert_by_name(sorted, x) == sorted.take(j).push(x) + sorted.skip(j),
    decreases sorted.len(),
{
    if sorted.len() == 0 {
        assert(sorted.take(j).push(x) + sorted.skip(j) =~= seq![x]);
    } else if j == sorted.len() {
        assert(sorted.take(j) =~= sorted);
        assert(sorted.take(j).push(x) + sorted.skip(j) =~= sorted.push(x));
    } else {
        let d = sorted.drop_last();
        assert(!crate::parser::references::text_le(sorted[sorted.len() - 1].name@, x.name@));
        lemma_insert_by_name(d, x, j);
        assert(d.take(j) =~= sorted.take(j));
        assert((d.take(j).push(x) + d.skip(j)).push(sorted.last()) =~= sorted.take(j).push(x)
            + sorted.skip(j));
    }
}

fn name_le(a: &Symbol, b: &Symbol) -> (r: bool)
    ensures
        r == crate::parser::references::text_le(a.name@, b.name@),
{
    let an = chars_of(a.name.as_str());
    let bn = chars_of(b.name.as_str());
    crate::parser::references::text_le_exec(&an, &bn)
}

/// The symbols of `all` that a workspace search for `query` finds: those
/// that know their document and whose lowercased name holds the lowercased
/// query, sorted by name (symbols with equal names keep their order).
pub fn workspace_symbols(all: Vec<Symbol>, query: &str) -> (r: Vec<Symbol>)
    ensures
        r@ == sort_by_name(query_matches(all@, query@)),
{
    let q = to_lowercase(query);
    let ghost whole = all@;
    let ghost found = query_matches(whole, query@);
    let mut rest = all;
    let mut out: Vec<Symbol> = Vec::new();
    let ghost mut k: int = 0;
    assert(whole.skip(0) =~= whole);
    assert(whole.take(0) =~= Seq::<Symbol>::empty());
    while rest.len() > 0
        invariant
            0 <= k <= whole.len(),
            rest@ == whole.skip(k),
            q@ == lowercase(query@),
            out@ == sort_by_name(query_matches(whole.take(k), query@)),
        decreases rest@.len(),
    {
        let ghost r0 = rest@;
        let x = rest.remove(0);
        proof {
            assert(rest@ =~= whole.skip(k + 1));
            assert(x == whole[k]);
            assert(whole.take(k + 1).drop_last() =~= whole.take(k));
            assert(whole.take(k + 1).last() == x);
            reveal_with_fuel(Seq::filter, 1);
        }
        let keep = match &x.uri {
            Some(_) => {
                let n = to_lowercase(x.name.as_str());
                let nc = chars_of(n.as_str());
                let qc = chars_of(q.as_str());
                crate::text::contains_chars(&nc, &qc)
            },
            None => false,
        };
        proof {
            let f0 = query_matches(whole.take(k), query@);
            let f1 = query_matches(whole.take(k + 1), query@);
            reveal_with_fuel(Seq::filter, 1);
            assert(keep == matches_query(x, query@));
            if keep {
                assert(f1 == f0.push(x));
                assert(f1.drop_last() =~= f0);
                assert(sort_by_name(f1) == insert_by_name(sort_by_name(f0), x));
            } else {
                assert(f1 == f0);
            }
        }
        if keep {
            let mut j = out.len();
            while j > 0 && !name_le(&out[j - 1], &x)
                invariant
                    j <= out@.len(),
                    forall|p: int|
                        j <= p < out@.len() ==> !crate::parser::references::text_le(
                            #[trigger] out@[p].name@,
                            x.name@,
                        ),
                decreases j,
            {
                j = j - 1;
            }
            let ghost o = out@;
            proof {
                lemma_insert_by_name(o, x, j as int);
            }
            out.insert(j, x);
            assert(out@ =~= o.take(j as int).push(x) + o.skip(j as int));
        }
        proof {
            k = k + 1;
        }
    }
    assert(whole.take(k) =~= whole);
    out
}

/// The name a hover gives a symbol kind.
pub open spec fn kind_label(kind: SymbolKind) -> Seq<char> {
    match kind {
        SymbolKind::Module => "Module"@,
        SymbolKind::Function => "Function/Method"@,
        SymbolKind::Variable => "Variable"@,
        SymbolKind::Type => "Type"@,
        SymbolKind::Interface => "Interface"@,
        SymbolKind::Package => "Package"@,
        SymbolKind::Method => "Method"@,
        SymbolKind::Rule => "Rule"@,
        SymbolKind::Unknown => "Unknown"@,
    }
}

/// The name a hover gives a symbol kind.
pub fn symbol_kind_label(kind: SymbolKind) -> (r: &'static str)
    ensures
        r@ == kind_label(kind),
{
    match kind {
        SymbolKind::Module => "Module",
        SymbolKind::Function => "Function/Method",
        SymbolKind::Variable => "Variable",
        SymbolKind::Type => "Type",
        SymbolKind::Interface => "Interface",
        SymbolKind::Package => "Package",
        SymbolKind::Method => "Method",
        SymbolKind::Rule => "Rule",
        SymbolKind::Unknown => "Unknown",
    }
}

/// The hover text of a symbol: its name in bold, then its kind.
pub fn symbol_hover_text(name: &str, kind: SymbolKind) -> (r: String)
    ensures
        r@ == "**"@ + name@ + "**\n\n*Kind: "@ + kind_label(kind) + "*"@,
{
    let mut s = String::new();
    append_str(&mut s, "**");
    append_str(&mut s, name);
    append_str(&mut s, "**\n\n*Kind: ");
    append_str(&mut s, symbol_kind_label(kind));
    append_str(&mut s, "*");
    s
}

/// The hover text of a constant: its name and value, then the trace of its
/// expansion; or, when the expansion failed, its written value and a
/// warning.
pub open spec fn constant_hover(name: Seq<char>, written: Seq<char>, r: ExpansionResult) -> Seq<
    char,
> {
    if r.success {
        "**"@ + name + "** = `"@ + decimal(r.final_value as int) + "`\n\n```\n"@ + trace_text(r)
            + "\n```"@
    } else {
        "**"@ + name + "** = `"@ + written + "`\n\n\u{26a0}\u{fe0f} Could not fully expand"@
    }
}

/// The hover text of the constant `name`, written as `written`, given the
/// result of expanding it.
pub fn constant_hover_text(name: &str, written: &str, result: &ExpansionResult) -> (r: String)
    requires
        trace_defined(*result),
    ensures
        r@ == constant_hover(name@, written@, *result),
{
    let mut s = String::new();
    append_str(&mut s, "**");
    append_str(&mut s, name);
    append_str(&mut s, "** = `");
    if result.success {
        let v = i64_decimal(result.final_value);
        append_chars(&mut s, &v);
        append_str(&mut s, "`\n\n```\n");
        let t = result.format_trace();
        append_str(&mut s, t.as_str());
        append_str(&mut s, "\n```");
    } else {
        append_str(&mut s, written);
        append_str(&mut s, "`\n\n\u{26a0}\u{fe0f} Could not fully expand");
    }
    s
}

/// A constant named by the word under the cursor: the word, the
/// constant's definition, and the word's range.
#[derive(Debug)]
pub struct ConstantUsage {
    pub word: String,
    pub definition: ConstantDef,
    pub range: Range,
}

/// The constants a hover at a position can show.
#[derive(Debug)]
pub struct HoverTargets {
    /// The constant whose definition's name the cursor is on.
    pub definition: Option<ConstantDef>,
    /// The constant the word under the cursor names.
    pub usage: Option<ConstantUsage>,
}

/// The range of the word `w` under the cursor on its line `l`: from where
/// the word starts, as long as the word's UTF-8 encoding.
pub open spec fn word_range(l: Seq<char>, position: Position, w: Seq<char>) -> Range {
    let s = scan_left(l, position.character as int);
    Range {
        start: Position { line: position.line, character: s as u32 },
        end: Position { line: position.line, character: (s + encode_utf8(w).len()) as u32 },
    }
}

/// The constant the word under the cursor names: the first definition of
/// that name in the document, else the first among `all`.
pub open spec fn usage_at(text: Seq<char>, position: Position, all: Seq<SpecConstantDef>) -> Option<
    (Seq<char>, SpecConstantDef, Range),
> {
    match nth_line(text, position.line as int) {
        None => None,
        Some(l) => match word_at(l, position.character as int) {
            None => None,
            Some(w) => {
                let d = match first_named(constant_defs(text), w) {
                    Some(d) => Some(d),
                    None => first_named(all, w),
                };
                match d {
                    None => None,
                    Some(d) => Some((w, d, word_range(l, position, w))),
                }
            },
        },
    }
}

pub open spec fn usage_view(u: Option<ConstantUsage>) -> Option<
    (Seq<char>, SpecConstantDef, Range),
> {
    match u {
        Some(x) => Some((x.word@, x.definition.view(), x.range)),
        None => None,
    }
}

pub open spec fn def_view(d: Option<ConstantDef>) -> Option<SpecConstantDef> {
    match d {
        Some(x) => Some(x.view()),
        None => None,
    }
}

/// The first of `all` named `name`.
fn first_named_in(all: &Vec<ConstantDef>, name: &str) -> (r: Option<ConstantDef>)
    ensures
        def_view(r) == first_named(defs_view(all@), name@),
{
    let ghost defs = defs_view(all@);
    let mut i: usize = 0;
    assert(defs.skip(0) =~= defs);
    while i < all.len()
        invariant
            i <= all@.len(),
            defs == defs_view(all@),
            first_named(defs, name@) == first_named(defs.skip(i as int), name@),
        decreases all@.len() - i,
    {
        assert(defs[i as int] == all@[i as int].view());
        assert(defs.skip(i as int)[0] == defs[i as int]);
        assert(defs.skip(i as int).drop_first() =~= defs.skip(i + 1));
        if crate::text::str_eq(all[i].name.as_str(), name) {
            return Some(all[i].duplicate());
        }
        i = i + 1;
    }
    None
}

/// The constants a hover at `position` in `text` can show: the definition
/// whose name the cursor is on, and the constant that the word under the
/// cursor names (defined in `text`, else among `all_defs`, the definitions
/// of every open document).
pub fn hover_targets(text: &str, position: Position, all_defs: &Vec<ConstantDef>) -> (r:
    HoverTargets)
    requires
        text.spec_bytes().len() <= u32::MAX,
        word_under_defined(text@, position),
    ensures
        def_view(r.definition) == first_at(text@, constant_defs(text@), position),
        usage_view(r.usage) == usage_at(text@, position, defs_view(all_defs@)),
{
    let parser = ConstantParser::new();
    let definition = parser.find_constant_at_position(text, position);
    let usage = match get_line_content(text, position.line as usize) {
        None => None,
        Some(line) => match extract_word_at_position(line, position.character as usize) {
            None => None,
            Some(word) => {
                let found = match parser.find_constant_by_name(text, word.as_str()) {
                    Some(d) => Some(d),
                    None => first_named_in(all_defs, word.as_str()),
                };
                match found {
                    None => None,
                    Some(d) => {
                        let start = find_word_start(line, position.character as usize);
                        proof {
                            lemma_scan_bounds(line@, position.character as int);
                        }
                        assert(encode_utf8(word@).len() + start <= usize::MAX);
                        let end = start + word.as_str().len();
                        let range = Range {
                            start: Position { line: position.line, character: start as u32 },
                            end: Position { line: position.line, character: end as u32 },
                        };
                        Some(ConstantUsage { word, definition: d, range })
                    },
                }
            },
        },
    };
    HoverTargets { definition, usage }
}

/// The hover shown: a constant's definition under the cursor with its
/// expansion; else the constant the word under the cursor names with its
/// expansion; else the symbol under the cursor.
pub open spec fn hover_choice(
    targets: HoverTargets,
    definition_expansion: Option<ExpansionResult>,
    usage_expansion: Option<ExpansionResult>,
    symbol: Option<Symbol>,
) -> Option<(Seq<char>, Range)> {
    if targets.definition is Some && definition_expansion is Some {
        let d = targets.definition->0;
        Some((constant_hover(d.name@, d.value@, definition_expansion->0), d.range))
    } else if targets.usage is Some && usage_expansion is Some {
        let u = targets.usage->0;
        Some((constant_hover(u.word@, u.definition.value@, usage_expansion->0), u.range))
    } else {
        match symbol {
            Some(s) => Some(("**"@ + s.name@ + "**\n\n*Kind: "@ + kind_label(s.kind) + "*"@, s.range)),
            None => None,
        }
    }
}

pub open spec fn expansion_ok(x: Option<ExpansionResult>) -> bool {
    x matches Some(r) ==> trace_defined(r)
}

/// The text and range of the hover, given the expansion of the constant
/// defined under the cursor, that of the constant the word names, and the
/// symbol whose range holds the cursor.
pub fn hover_content(
    targets: &HoverTargets,
    definition_expansion: Option<ExpansionResult>,
    usage_expansion: Option<ExpansionResult>,
    symbol: Option<Symbol>,
) -> (r: Option<(String, Range)>)
    requires
        expansion_ok(definition_expansion),
        expansion_ok(usage_expansion),
    ensures
        (match r {
            Some(x) => Some((x.0@, x.1)),
            None => None,
        }) == hover_choice(*targets, definition_expansion, usage_expansion, symbol),
{
    if let Some(d) = &targets.definition {
        if let Some(x) = &definition_expansion {
            let text = constant_hover_text(d.name.as_str(), d.value.as_str(), x);
            return Some((text, d.range));
        }
    }
    if let Some(u) = &targets.usage {
        if let Some(x) = &usage_expansion {
            let text = constant_hover_text(u.word.as_str(), u.definition.value.as_str(), x);
            return Some((text, u.range));
        }
    }
    match symbol {
        Some(s) => {
            let text = symbol_hover_text(s.name.as_str(), s.kind);
            Some((text, s.range))
        },
        None => None,
    }
}

/// Replaces what the table knows of the document `uri` by its freshly
/// extracted symbols: the document's old symbols and references are
/// forgotten, then each symbol is recorded in order, tagged with `uri`.
pub fn update_symbols(table: &mut SymbolTable, uri: &str, symbols: Vec<Symbol>)
    ensures
        final(table).references_view() == old(table).references_view().remove(uri@),
        final(table).symbols_view().remove(uri@) == old(table).symbols_view().remove(uri@),
        symbols@.len() == 0 ==> !final(table).symbols_view().contains_key(uri@),
        symbols@.len() > 0 ==> final(table).symbols_view().contains_key(uri@),
        entry_or_empty(final(table).symbols_view(), uri@).len() == symbols@.len(),
        forall|i: int|
            0 <= i < symbols@.len() ==> crate::symbols::symbol_in(
                #[trigger] entry_or_empty(final(table).symbols_view(), uri@)[i],
                symbols@[i],
                uri@,
            ),
{
    table.clear_file(uri);
    let ghost cleared_syms = table.symbols_view();
    let ghost cleared_refs = table.references_view();
    let ghost all = symbols@;
    let mut rest = symbols;
    let ghost mut k: int = 0;
    assert(all.skip(0) =~= all);
    while rest.len() > 0
        invariant
            0 <= k <= all.len(),
            rest@ == all.skip(k),
            table.references_view() == cleared_refs,
            cleared_refs == old(table).references_view().remove(uri@),
            cleared_syms == old(table).symbols_view().remove(uri@),
            table.symbols_view().remove(uri@) == cleared_syms,
            k == 0 ==> !table.symbols_view().contains_key(uri@),
            k > 0 ==> table.symbols_view().contains_key(uri@),
            entry_or_empty(table.symbols_view(), uri@).len() == k,
            forall|i: int|
                0 <= i < k ==> crate::symbols::symbol_in(
                    #[trigger] entry_or_empty(table.symbols_view(), uri@)[i],
                    all[i],
                    uri@,
                ),
        decreases rest@.len(),
    {
        let ghost before = table.symbols_view();
        let sym = rest.remove(0);
        proof {
            assert(rest@ =~= all.skip(k + 1));
            assert(sym == all[k]);
        }
        table.add_symbol(uri, sym);
        proof {
            let after = table.symbols_view();
            assert(after.remove(uri@) =~= before.remove(uri@));
            let l = entry_or_empty(after, uri@);
            assert(l.drop_last() == entry_or_empty(before, uri@));
            assert forall|i: int| 0 <= i < k + 1 implies crate::symbols::symbol_in(
                #[trigger] entry_or_empty(after, uri@)[i],
                all[i],
                uri@,
            ) by {
                if i < k {
                    assert(l[i] == l.drop_last()[i]);
                }
            }
            k = k + 1;
        }
    }
}

/// The diagnostic shown when a document cannot be parsed at all: an error
/// at the start of the document that gives the parser's reason.
pub fn parse_failure_diagnostic(reason: &str) -> (d: crate::diagnostics::Diagnostic)
    ensures
        d.range == (Range {
            start: Position { line: 0, character: 0 },
            end: Position { line: 0, character: 0 },
        }),
        d.severity == Some(crate::diagnostics::DiagnosticSeverity::Error),
        d.source matches Some(s) && s@ == "bsv"@,
        d.message@ == "Failed to parse file: "@ + reason@,
{
    let mut message = String::new();
    append_str(&mut message, "Failed to parse file: ");
    append_str(&mut message, reason);
    crate::diagnostics::Diagnostic {
        range: Range {
            start: Position { line: 0, character: 0 },
            end: Position { line: 0, character: 0 },
        },
        severity: Some(crate::diagnostics::DiagnosticSeverity::Error),
        source: Some(String::from_str("bsv")),
        message,
    }
}

/// The diagnostic for a document the parser could not read, as plain values.
pub open spec fn parse_failure_view(reason: Seq<char>) -> crate::diagnostics::SpecDiagnostic {
    crate::diagnostics::SpecDiagnostic {
        range: Range {
            start: Position { line: 0, character: 0 },
            end: Position { line: 0, character: 0 },
        },
        severity: Some(crate::diagnostics::DiagnosticSeverity::Error),
        source: Some("bsv"@),
        message: "Failed to parse file: "@ + reason,
    }
}

/// What the table holds of the document `uri` after its symbols `syms`
/// (as plain values) have been recorded in place of the old ones.
pub open spec fn holds_symbols_of(
    old_table: SymbolTable,
    new_table: SymbolTable,
    uri: Seq<char>,
    syms: Seq<SpecSymbol>,
) -> bool {
    &&& new_table.references_view() == old_table.references_view().remove(uri)
    &&& new_table.symbols_view().remove(uri) == old_table.symbols_view().remove(uri)
    &&& (new_table.symbols_view().contains_key(uri) <==> syms.len() > 0)
    &&& entry_or_empty(new_table.symbols_view(), uri).len() == syms.len()
    &&& forall|i: int|
        #![trigger entry_or_empty(new_table.symbols_view(), uri)[i]]
        0 <= i < syms.len() ==> stored_as(entry_or_empty(new_table.symbols_view(), uri)[i], syms[i], uri)
}

/// The table's entry `e` is the symbol `s` of the document `uri`.
pub open spec fn stored_as(e: Symbol, s: SpecSymbol, uri: Seq<char>) -> bool {
    &&& symbol_view(e) == s
    &&& e.uri matches Some(u) && u@ == uri
    &&& e.container is None
}

/// The work done when the document `uri` with text `text` changes, given
/// what the parser made of it: for a tree, its diagnostics are returned and
/// its symbols replace the document's old symbols and references in the
/// table; for a failure, one diagnostic gives the parser's reason and the
/// table is left as it is.
pub fn update_document(
    table: &mut SymbolTable,
    uri: &str,
    text: &str,
    parsed: Result<SyntaxNode, String>,
) -> (r: Vec<crate::diagnostics::Diagnostic>)
    requires
        parsed matches Ok(tree) ==> collectable(tree, text@),
    ensures
        parsed matches Ok(tree) ==> diagnostics_view(r@) == diagnostics_of(tree, text@)
            && holds_symbols_of(*old(table), *final(table), uri@, symbols_of(tree)),
        parsed matches Err(reason) ==> diagnostics_view(r@) == seq![parse_failure_view(reason@)]
            && *final(table) == *old(table),
{
    match parsed {
        Ok(tree) => {
            let diags = DiagnosticCollector::collect(&tree, text);
            let symbols = extract_symbols(&tree);
            let ghost sv = symbols@;
            update_symbols(table, uri, symbols);
            proof {
                let e = entry_or_empty(table.symbols_view(), uri@);
                assert forall|i: int| #![trigger e[i]] 0 <= i < sv.len() implies stored_as(
                    e[i],
                    symbols_of(tree)[i],
                    uri@,
                ) by {
                    assert(crate::symbols::symbol_in(e[i], sv[i], uri@));
                    assert(symbols_view(sv)[i] == symbol_view(sv[i]));
                    assert(fresh_symbol(sv[i]));
                }
            }
            diags
        },
        Err(reason) => {
            let d = parse_failure_diagnostic(reason.as_str());
            let r = vec![d];
            assert(diagnostics_view(r@) =~= seq![parse_failure_view(reason@)]);
            r
        },
    }
}

/// Symbols ordered by name.
pub open spec fn symbols_sorted_by_name(s: Seq<Symbol>) -> bool {
    forall|i: int, j: int|
        #![trigger s[i], s[j]]
        0 <= i < j < s.len() ==> crate::parser::references::text_le(s[i].name@, s[j].name@)
}

proof fn lemma_insert_by_name_facts(sorted: Seq<Symbol>, x: Symbol)
    requires
        symbols_sorted_by_name(sorted),
    ensures
        symbols_sorted_by_name(insert_by_name(sorted, x)),
        insert_by_name(sorted, x).len() == sorted.len() + 1,
        forall|k: int|
            #![trigger insert_by_name(sorted, x)[k]]
            0 <= k < insert_by_name(sorted, x).len() ==> insert_by_name(sorted, x)[k] == x || exists|
                j: int,
            |
                #![trigger sorted[j]]
                0 <= j < sorted.len() && insert_by_name(sorted, x)[k] == sorted[j],
    decreases sorted.len(),
{
    if sorted.len() == 0 {
    } else if crate::parser::references::text_le(sorted.last().name@, x.name@) {
        let r = sorted.push(x);
        assert forall|i: int, j: int| #![trigger r[i], r[j]] 0 <= i < j < r.len() implies crate::parser::references::text_le(
            r[i].name@,
            r[j].name@,
        ) by {
            if j == sorted.len() && i < sorted.len() - 1 {
                assert(r[i] == sorted[i]);
                crate::parser::references::lemma_text_le_trans(
                    sorted[i].name@,
                    sorted.last().name@,
                    x.name@,
                );
            } else if j < sorted.len() {
                assert(r[i] == sorted[i] && r[j] == sorted[j]);
            }
        }
        assert forall|k: int| #![trigger r[k]] 0 <= k < r.len() implies r[k] == x || exists|j: int|
            #![trigger sorted[j]]
            0 <= j < sorted.len() && r[k] == sorted[j] by {
            if k < sorted.len() {
                assert(r[k] == sorted[k]);
            }
        }
    } else {
        let d = sorted.drop_last();
        let last = sorted.last();
        crate::parser::references::lemma_text_le_total(last.name@, x.name@);
        assert(symbols_sorted_by_name(d)) by {
            assert forall|i: int, j: int| #![trigger d[i], d[j]] 0 <= i < j < d.len() implies crate::parser::references::text_le(
                d[i].name@,
                d[j].name@,
            ) by {
                assert(d[i] == sorted[i] && d[j] == sorted[j]);
            }
        }
        lemma_insert_by_name_facts(d, x);
        let r = insert_by_name(d, x);
        let out = r.push(last);
        assert forall|i: int, j: int| #![trigger out[i], out[j]] 0 <= i < j < out.len() implies crate::parser::references::text_le(
            out[i].name@,
            out[j].name@,
        ) by {
            assert(out[i] == r[i]);
            if j == r.len() {
                if r[i] != x {
                    let q = choose|q: int| #![trigger d[q]] 0 <= q < d.len() && r[i] == d[q];
                    assert(d[q] == sorted[q]);
                    assert(sorted[q] == r[i]);
                    assert(sorted[sorted.len() - 1] == last);
                }
            } else {
                assert(out[j] == r[j]);
            }
        }
        assert forall|k: int| #![trigger out[k]] 0 <= k < out.len() implies out[k] == x || exists|
            j: int,
        |
            #![trigger sorted[j]]
            0 <= j < sorted.len() && out[k] == sorted[j] by {
            if k < r.len() {
                assert(out[k] == r[k]);
                if r[k] != x {
                    let q = choose|q: int| #![trigger d[q]] 0 <= q < d.len() && r[k] == d[q];
                    assert(d[q] == sorted[q]);
                }
            } else {
                assert(out[k] == sorted[sorted.len() - 1]);
            }
        }
    }
}

proof fn lemma_sort_by_name_facts(s: Seq<Symbol>)
    ensures
        symbols_sorted_by_name(sort_by_name(s)),
        forall|k: int|
            #![trigger sort_by_name(s)[k]]
            0 <= k < sort_by_name(s).len() ==> exists|j: int|
                #![trigger s[j]]
                0 <= j < s.len() && sort_by_name(s)[k] == s[j],
    decreases s.len(),
{
    if s.len() > 0 {
        let t = s.drop_last();
        lemma_sort_by_name_facts(t);
        lemma_insert_by_name_facts(sort_by_name(t), s.last());
        let r = sort_by_name(s);
        assert forall|k: int| #![trigger r[k]] 0 <= k < r.len() implies exists|j: int|
            #![trigger s[j]]
            0 <= j < s.len() && r[k] == s[j] by {
            if r[k] == s.last() {
                assert(s[s.len() - 1] == s.last());
            } else {
                let q = choose|q: int|
                    #![trigger sort_by_name(t)[q]]
                    0 <= q < sort_by_name(t).len() && r[k] == sort_by_name(t)[q];
                let p = choose|p: int| #![trigger t[p]] 0 <= p < t.len() && sort_by_name(t)[q] == t[p];
                assert(t[p] == s[p]);
            }
        }
    }
}

/// A workspace search returns its matches ordered by name, and every
/// symbol it returns knows its document and has the query in its name
/// (ignoring case).
pub proof fn workspace_search_sorted_and_matching(all: Seq<Symbol>, query: Seq<char>)
    ensures
        symbols_sorted_by_name(sort_by_name(query_matches(all, query))),
        forall|k: int|
            0 <= k < sort_by_name(query_matches(all, query)).len() ==> matches_query(
                #[trigger] sort_by_name(query_matches(all, query))[k],
                query,
            ),
{
    let f = query_matches(all, query);
    lemma_sort_by_name_facts(f);
    let r = sort_by_name(f);
    assert forall|k: int| 0 <= k < r.len() implies matches_query(#[trigger] r[k], query) by {
        let j = choose|j: int| #![trigger f[j]] 0 <= j < f.len() && r[k] == f[j];
        assert(f.contains(f[j]));
    }
}

proof fn lemma_insert_by_name_keeps(sorted: Seq<Symbol>, x: Symbol, y: Symbol)
    requires
        y == x || sorted.contains(y),
    ensures
        insert_by_name(sorted, x).contains(y),
    decreases sorted.len(),
{
    if sorted.len() == 0 {
        assert(seq![x][0] == y);
    } else if crate::parser::references::text_le(sorted.last().name@, x.name@) {
        if y == x {
            assert(sorted.push(x)[sorted.len() as int] == y);
        } else {
            let k = choose|k: int| 0 <= k < sorted.len() && sorted[k] == y;
            assert(sorted.push(x)[k] == y);
        }
    } else {
        let d = sorted.drop_last();
        let r = insert_by_name(d, x);
        if y == sorted.last() {
            assert(r.push(sorted.last())[r.len() as int] == y);
        } else {
            if y != x {
                let k = choose|k: int| 0 <= k < sorted.len() && sorted[k] == y;
                assert(d[k] == y);
            }
            lemma_insert_by_name_keeps(d, x, y);
            let k = choose|k: int| 0 <= k < r.len() && r[k] == y;
            assert(r.push(sorted.last())[k] == y);
        }
    }
}

proof fn lemma_sort_by_name_keeps(s: Seq<Symbol>, y: Symbol)
    requires
        s.contains(y),
    ensures
        sort_by_name(s).contains(y),
    decreases s.len(),
{
    let d = s.drop_last();
    if y == s.last() {
        lemma_insert_by_name_keeps(sort_by_name(d), s.last(), y);
    } else {
        let k = choose|k: int| 0 <= k < s.len() && s[k] == y;
        assert(d[k] == y);
        lemma_sort_by_name_keeps(d, y);
        lemma_insert_by_name_keeps(sort_by_name(d), s.last(), y);
    }
}

/// `q` occurs in `n` as a run of consecutive characters.
pub open spec fn occurs_in(n: Seq<char>, q: Seq<char>) -> bool {
    exists|i: int| 0 <= i && i + q.len() <= n.len() && #[trigger] n.subrange(i, i + q.len()) == q
}

/// A workspace search finds exactly the symbols, among those given, that
/// know their document and whose lower-cased name holds the lower-cased
/// query anywhere in it (not only at its start).
pub proof fn workspace_search_finds_substrings(all: Seq<Symbol>, query: Seq<char>, s: Symbol)
    ensures
        sort_by_name(query_matches(all, query)).contains(s) <==> (all.contains(s) && s.uri is Some
            && occurs_in(lowercase(s.name@), lowercase(query))),
{
    let pred = |x: Symbol| matches_query(x, query);
    let f = query_matches(all, query);
    all.filter_lemma(pred);
    lemma_sort_by_name_facts(f);
    let n = lowercase(s.name@);
    let q = lowercase(query);
    assert(contains_seq(n, q) <==> occurs_in(n, q)) by {
        if contains_seq(n, q) {
            let i = choose|i: int| crate::text::occurs_at(n, q, i);
            assert(n.subrange(i, i + q.len()) == q);
        }
        if occurs_in(n, q) {
            let i = choose|i: int| 0 <= i && i + q.len() <= n.len() && #[trigger] n.subrange(i, i + q.len()) == q;
            assert(crate::text::occurs_at(n, q, i));
        }
    }
    if sort_by_name(f).contains(s) {
        let k = choose|k: int| 0 <= k < sort_by_name(f).len() && sort_by_name(f)[k] == s;
        let j = choose|j: int| #![trigger f[j]] 0 <= j < f.len() && sort_by_name(f)[k] == f[j];
        assert(pred(f[j]));
        reveal(Seq::filter);
        lemma_filter_members(all, pred, j);
    }
    if all.contains(s) && s.uri is Some && occurs_in(n, q) {
        let j = choose|j: int| 0 <= j < all.len() && all[j] == s;
        assert(pred(all[j]));
        assert(f.contains(all[j]));
        lemma_sort_by_name_keeps(f, s);
    }
}

proof fn lemma_filter_members(all: Seq<Symbol>, pred: spec_fn(Symbol) -> bool, j: int)
    requires
        0 <= j < all.filter(pred).len(),
    ensures
        all.contains(all.filter(pred)[j]),
    decreases all.len(),
{
    reveal(Seq::filter);
    let d = all.drop_last();
    let sub = d.filter(pred);
    if pred(all.last()) && j == sub.len() {
        assert(all.filter(pred)[j] == all.last());
        assert(all[all.len() - 1] == all.last());
    } else {
        assert(all.filter(pred)[j] == sub[j]);
        lemma_filter_members(d, pred, j);
        let k = choose|k: int| 0 <= k < d.len() && d[k] == sub[j];
        assert(all[k] == d[k]);
    }
}

} // verus!
