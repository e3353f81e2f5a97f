//! Symbols, references, and the table that keeps them per document.
use vstd::prelude::*;

use crate::position::{pos_le, Position, Range};
use crate::text::str_eq;

verus! {

#[derive(Debug, Clone, Copy, PartialEq, Eq, Hash, Structural)]
pub enum SymbolKind {
    Module,
    Function,
    Variable,
    Type,
    Interface,
    Package,
    Method,
    Rule,
    Unknown,
}

#[derive(Debug, Clone)]
pub struct ParameterInfo {
    pub name: String,
    pub param_type: Option<String>,
}

impl ParameterInfo {
    pub fn new(name: String, param_type: Option<String>) -> (r: Self)
        ensures
            r.name == name,
            r.param_type == param_type,
    {
        Self { name, param_type }
    }
}

#[derive(Debug, Clone)]
pub struct Symbol {
    pub name: String,
    pub kind: SymbolKind,
    pub range: Range,
    /// The document the symbol is defined in.
    pub uri: Option<String>,
    pub container: Option<String>,
    pub documentation: Option<String>,
    pub parameters: Vec<ParameterInfo>,
}

/// `p` lies within `r`, both ends included.
pub open spec fn range_contains(r: Range, p: Position) -> bool {
    pos_le(r.start, p) && pos_le(p, r.end)
}

impl Symbol {
    pub fn new(name: String, kind: SymbolKind, range: Range) -> (r: Self)
        ensures
            r.name == name,
            r.kind == kind,
            r.range == range,
            r.uri is None,
            r.container is None,
            r.documentation is None,
            r.parameters@.len() == 0,
    {
        Self {
            name,
            kind,
            range,
            uri: None,
            container: None,
            documentation: None,
            parameters: Vec::new(),
        }
    }

    /// Whether `position` lies within the symbol's range.
    pub fn contains_position(&self, position: &Position) -> (b: bool)
        ensures
            b == range_contains(self.range, *position),
    {
        self.range.start.le(position) && position.le(&self.range.end)
    }
}

#[derive(Debug, Clone)]
pub struct Reference {
    pub name: String,
    pub range: Range,
    /// The document the reference stands in.
    pub uri: Option<String>,
}

#[verifier::external_type_specification]
#[verifier::external_body]
#[verifier::reject_recursive_types(K)]
#[verifier::reject_recursive_types(V)]
#[verifier::reject_recursive_types(S)]
pub struct ExDashMap<K, V, S>(dashmap::DashMap<K, V, S>);

/// What a map of symbols holds: for each document key, its symbols in the
/// order they were added.
pub uninterp spec fn symbol_map(m: dashmap::DashMap<String, Vec<Symbol>>) -> Map<
    Seq<char>,
    Seq<Symbol>,
>;

/// What a map of references holds: for each document key, its references in
/// the order they were added.
pub uninterp spec fn reference_map(m: dashmap::DashMap<String, Vec<Reference>>) -> Map<
    Seq<char>,
    Seq<Reference>,
>;

/// The list under `key`, or an empty one.
pub open spec fn entry_or_empty<T>(m: Map<Seq<char>, Seq<T>>, key: Seq<char>) -> Seq<T> {
    if m.contains_key(key) {
        m[key]
    } else {
        seq![]
    }
}

/// `e` lists the entries of `m`: each key once, with its list, and every key
/// of `m`.
pub open spec fn lists_entries<T>(e: Seq<(Seq<char>, Seq<T>)>, m: Map<Seq<char>, Seq<T>>) -> bool {
    &&& forall|i: int| #![trigger e[i]] 0 <= i < e.len() ==> m.contains_key(e[i].0) && m[e[i].0] == e[i].1
    &&& forall|i: int, j: int| 0 <= i < j < e.len() ==> e[i].0 != e[j].0
    &&& forall|k: Seq<char>| #[trigger] m.contains_key(k) ==> exists|i: int| 0 <= i < e.len() && e[i].0 == k
}

/// The lists of `e` one after another.
pub open spec fn flatten<T>(e: Seq<(Seq<char>, Seq<T>)>) -> Seq<T>
    decreases e.len(),
{
    if e.len() == 0 {
        seq![]
    } else {
        flatten(e.drop_last()) + e.last().1
    }
}

pub open spec fn symbol_entries_view(e: Seq<(String, Vec<Symbol>)>) -> Seq<(Seq<char>, Seq<Symbol>)> {
    Seq::new(e.len(), |i: int| (e[i].0@, e[i].1@))
}

pub open spec fn reference_entries_view(e: Seq<(String, Vec<Reference>)>) -> Seq<
    (Seq<char>, Seq<Reference>),
> {
    Seq::new(e.len(), |i: int| (e[i].0@, e[i].1@))
}

/// `DashMap::new` for symbols.
#[verifier::external_body]
fn new_symbol_map() -> (created: dashmap::DashMap<String, Vec<Symbol>>)
    ensures
        symbol_map(created).dom() == Set::<Seq<char>>::empty(),
{
    dashmap::DashMap::new()
}

/// `DashMap::new` for references.
#[verifier::external_body]
fn new_reference_map() -> (created: dashmap::DashMap<String, Vec<Reference>>)
    ensures
        reference_map(created).dom() == Set::<Seq<char>>::empty(),
{
    dashmap::DashMap::new()
}

/// `DashMap::entry(key).or_default().push(s)`: appends `s` to the list under
/// `key`, which starts empty.
#[verifier::external_body]
fn push_symbol(m: &mut dashmap::DashMap<String, Vec<Symbol>>, key: String, s: Symbol)
    ensures
        symbol_map(*final(m)) == symbol_map(*old(m)).insert(
            key@,
            entry_or_empty(symbol_map(*old(m)), key@).push(s),
        ),
{
    m.entry(key).or_default().push(s);
}

/// `DashMap::entry(key).or_default().push(r)` for references.
#[verifier::external_body]
fn push_reference(m: &mut dashmap::DashMap<String, Vec<Reference>>, key: String, r: Reference)
    ensures
        reference_map(*final(m)) == reference_map(*old(m)).insert(
            key@,
            entry_or_empty(reference_map(*old(m)), key@).push(r),
        ),
{
    m.entry(key).or_default().push(r);
}

/// `DashMap::get(key)`, cloning the list found (the derived clone copies
/// each field), or an empty list.
#[verifier::external_body]
fn symbols_under(m: &dashmap::DashMap<String, Vec<Symbol>>, key: &str) -> (r: Vec<Symbol>)
    ensures
        r@ == entry_or_empty(symbol_map(*m), key@),
{
    m.get(key).map(|v| v.clone()).unwrap_or_default()
}

/// `DashMap::get(key)` for references, cloning the list found.
#[verifier::external_body]
fn references_under(m: &dashmap::DashMap<String, Vec<Reference>>, key: &str) -> (r: Vec<Reference>)
    ensures
        r@ == entry_or_empty(reference_map(*m), key@),
{
    m.get(key).map(|v| v.clone()).unwrap_or_default()
}

/// `DashMap::remove(key)`.
#[verifier::external_body]
fn remove_symbols(m: &mut dashmap::DashMap<String, Vec<Symbol>>, key: &str)
    ensures
        symbol_map(*final(m)) == symbol_map(*old(m)).remove(key@),
{
    m.remove(key);
}

/// `DashMap::remove(key)` for references.
#[verifier::external_body]
fn remove_references(m: &mut dashmap::DashMap<String, Vec<Reference>>, key: &str)
    ensures
        reference_map(*final(m)) == reference_map(*old(m)).remove(key@),
{
    m.remove(key);
}

/// `DashMap::iter`, cloning each entry; the order is the map's own.
#[verifier::external_body]
fn symbol_entries(m: &dashmap::DashMap<String, Vec<Symbol>>) -> (r: Vec<(String, Vec<Symbol>)>)
    ensures
        lists_entries(symbol_entries_view(r@), symbol_map(*m)),
{
    m.iter().map(|e| (e.key().clone(), e.value().clone())).collect()
}

/// `DashMap::iter` for references, cloning each entry.
#[verifier::external_body]
fn reference_entries(m: &dashmap::DashMap<String, Vec<Reference>>) -> (r: Vec<
    (String, Vec<Reference>),
>)
    ensures
        lists_entries(reference_entries_view(r@), reference_map(*m)),
{
    m.iter().map(|e| (e.key().clone(), e.value().clone())).collect()
}

/// `a` is `b` with its document set to `uri`.
pub open spec fn symbol_in(a: Symbol, b: Symbol, uri: Seq<char>) -> bool {
    &&& a.name == b.name
    &&& a.kind == b.kind
    &&& a.range == b.range
    &&& a.uri matches Some(u) && u@ == uri
    &&& a.container == b.container
    &&& a.documentation == b.documentation
    &&& a.parameters == b.parameters
}

/// `a` is `b` with its document set to `uri`.
pub open spec fn reference_in(a: Reference, b: Reference, uri: Seq<char>) -> bool {
    &&& a.name == b.name
    &&& a.range == b.range
    &&& a.uri matches Some(u) && u@ == uri
}

/// `after` is `before` with the symbol `s` recorded in the document `uri`,
/// after that document's symbols, tagged with `uri`.
pub open spec fn symbol_recorded(
    before: Map<Seq<char>, Seq<Symbol>>,
    after: Map<Seq<char>, Seq<Symbol>>,
    uri: Seq<char>,
    s: Symbol,
) -> bool {
    &&& after.dom() == before.dom().insert(uri)
    &&& forall|k: Seq<char>| k != uri && #[trigger] before.contains_key(k) ==> after[k] == before[k]
    &&& after[uri].len() == entry_or_empty(before, uri).len() + 1
    &&& after[uri].drop_last() == entry_or_empty(before, uri)
    &&& symbol_in(after[uri].last(), s, uri)
}

/// `after` is `before` with the reference `r` recorded in the document
/// `uri`, after that document's references, tagged with `uri`.
pub open spec fn reference_recorded(
    before: Map<Seq<char>, Seq<Reference>>,
    after: Map<Seq<char>, Seq<Reference>>,
    uri: Seq<char>,
    r: Reference,
) -> bool {
    &&& after.dom() == before.dom().insert(uri)
    &&& forall|k: Seq<char>| k != uri && #[trigger] before.contains_key(k) ==> after[k] == before[k]
    &&& after[uri].len() == entry_or_empty(before, uri).len() + 1
    &&& after[uri].drop_last() == entry_or_empty(before, uri)
    &&& reference_in(after[uri].last(), r, uri)
}

/// The symbols among `s` named `name`, in order.
pub open spec fn named_symbols(s: Seq<Symbol>, name: Seq<char>) -> Seq<Symbol> {
    s.filter(|x: Symbol| x.name@ == name)
}

/// The references among `s` named `name`, in order.
pub open spec fn named_references(s: Seq<Reference>, name: Seq<char>) -> Seq<Reference> {
    s.filter(|x: Reference| x.name@ == name)
}

/// The first of `s` whose range holds `p`.
pub open spec fn first_containing(s: Seq<Symbol>, p: Position) -> Option<Symbol>
    decreases s.len(),
{
    if s.len() == 0 {
        None
    } else if range_contains(s[0].range, p) {
        Some(s[0])
    } else {
        first_containing(s.drop_first(), p)
    }
}

/// The symbols and references of every open document, each kept under the
/// document's URI.
#[derive(Debug)]
pub struct SymbolTable {
    symbols: dashmap::DashMap<String, Vec<Symbol>>,
    references: dashmap::DashMap<String, Vec<Reference>>,
}

impl SymbolTable {
    /// The symbols per document.
    pub closed spec fn symbols_view(&self) -> Map<Seq<char>, Seq<Symbol>> {
        symbol_map(self.symbols)
    }

    /// The references per document.
    pub closed spec fn references_view(&self) -> Map<Seq<char>, Seq<Reference>> {
        reference_map(self.references)
    }

    pub fn new() -> (t: Self)
        ensures
            t.symbols_view().dom() == Set::<Seq<char>>::empty(),
            t.references_view().dom() == Set::<Seq<char>>::empty(),
    {
        Self { symbols: new_symbol_map(), references: new_reference_map() }
    }

    /// Records `symbol` as defined in the document `uri`, after the symbols
    /// already recorded there.
    pub fn add_symbol(&mut self, uri: &str, symbol: Symbol)
        ensures
            final(self).references_view() == old(self).references_view(),
            symbol_recorded(old(self).symbols_view(), final(self).symbols_view(), uri@, symbol),
    {
        let mut symbol_with_uri = symbol;
        let key = uri_string(uri);
        symbol_with_uri.uri = Some(uri_string(uri));
        let ghost s = symbol_with_uri;
        push_symbol(&mut self.symbols, key, symbol_with_uri);
        assert(entry_or_empty(old(self).symbols_view(), uri@).push(s).drop_last()
            =~= entry_or_empty(old(self).symbols_view(), uri@));
    }

    /// The symbols of the document `uri`, in the order they were added.
    pub fn get_symbols(&self, uri: &str) -> (r: Vec<Symbol>)
        ensures
            r@ == entry_or_empty(self.symbols_view(), uri@),
    {
        symbols_under(&self.symbols, uri)
    }

    /// The first symbol of the document `uri` whose range holds `position`.
    pub fn find_symbol_at_position(&self, uri: &str, position: Position) -> (r: Option<Symbol>)
        ensures
            r == first_containing(entry_or_empty(self.symbols_view(), uri@), position),
    {
        let mut list = symbols_under(&self.symbols, uri);
        let ghost all = list@;
        let mut i: usize = 0;
        assert(all.skip(0) =~= all);
        while i < list.len()
            invariant
                list@ == all,
                i <= all.len(),
                all == entry_or_empty(self.symbols_view(), uri@),
                first_containing(all, position) == first_containing(all.skip(i as int), position),
            decreases all.len() - i,
        {
            assert(all.skip(i as int)[0] == all[i as int]);
            assert(all.skip(i as int).drop_first() =~= all.skip(i + 1));
            if list[i].contains_position(&position) {
                let s = list.remove(i);
                return Some(s);
            }
            i = i + 1;
        }
        None
    }

    /// Every symbol named `name`, over all documents (in the map's order of
    /// documents).
    pub fn find_symbol_by_name(&self, name: &str) -> (r: Vec<Symbol>)
        ensures
            exists|e: Seq<(Seq<char>, Seq<Symbol>)>|
                lists_entries(e, self.symbols_view()) && r@ == named_symbols(flatten(e), name@),
    {
        let all = self.get_all_symbols();
        let mut out: Vec<Symbol> = Vec::new();
        let mut all = all;
        let ghost whole = all@;
        let mut i: usize = 0;
        while i < all.len()
            invariant
                i <= all@.len(),
                all@.len() == whole.len(),
                forall|j: int| i <= j < whole.len() ==> all@[j] == whole[j],
                out@ == named_symbols(whole.take(i as int), name@),
            decreases whole.len() - i,
        {
            let ghost before = whole.take(i as int);
            proof {
                assert(whole.take(i + 1).drop_last() =~= before);
                assert(whole.take(i + 1).last() == whole[i as int]);
                reveal_with_fuel(Seq::filter, 1);
            }
            let matches = str_eq(all[i].name.as_str(), name);
            if matches {
                let s = take_symbol(&mut all, i);
                out.push(s);
            }
            i = i + 1;
        }
        assert(whole.take(whole.len() as int) =~= whole);
        out
    }

    /// Every symbol of every document (in the map's order of documents).
    pub fn get_all_symbols(&self) -> (r: Vec<Symbol>)
        ensures
            exists|e: Seq<(Seq<char>, Seq<Symbol>)>|
                lists_entries(e, self.symbols_view()) && r@ == flatten(e),
    {
        let entries = symbol_entries(&self.symbols);
        let ghost ev = symbol_entries_view(entries@);
        let mut out: Vec<Symbol> = Vec::new();
        let mut entries = entries;
        let mut i: usize = 0;
        assert(ev.take(0) =~= seq![]);
        while i < entries.len()
            invariant
                i <= entries@.len(),
                ev.len() == entries@.len(),
                forall|j: int| #![trigger entries@[j]] i <= j < ev.len() ==> entries@[j].1@ == ev[j].1,
                out@ == flatten(ev.take(i as int)),
            decreases ev.len() - i,
        {
            let list = take_list(&mut entries, i);
            assert(list@ == ev[i as int].1);
            let ghost o = out@;
            let mut list = list;
            let mut v: Vec<Symbol> = Vec::new();
            std::mem::swap(&mut v, &mut list);
            let mut v2 = v;
            out.append(&mut v2);
            proof {
                assert(ev.take(i + 1).drop_last() =~= ev.take(i as int));
                assert(ev.take(i + 1).last() == ev[i as int]);
            }
            i = i + 1;
        }
        assert(ev.take(ev.len() as int) =~= ev);
        out
    }

    /// Forgets the symbols and references of the document `uri`.
    pub fn clear_file(&mut self, uri: &str)
        ensures
            final(self).symbols_view() == old(self).symbols_view().remove(uri@),
            final(self).references_view() == old(self).references_view().remove(uri@),
    {
        remove_symbols(&mut self.symbols, uri);
        remove_references(&mut self.references, uri);
    }

    /// Records `reference` as standing in the document `uri`, after the
    /// references already recorded there.
    pub fn add_reference(&mut self, uri: &str, reference: Reference)
        ensures
            final(self).symbols_view() == old(self).symbols_view(),
            reference_recorded(
                old(self).references_view(),
                final(self).references_view(),
                uri@,
                reference,
            ),
    {
        let mut ref_with_uri = reference;
        let key = uri_string(uri);
        ref_with_uri.uri = Some(uri_string(uri));
        let ghost r = ref_with_uri;
        push_reference(&mut self.references, key, ref_with_uri);
        assert(entry_or_empty(old(self).references_view(), uri@).push(r).drop_last()
            =~= entry_or_empty(old(self).references_view(), uri@));
    }

    /// The references of the document `uri`, in the order they were added.
    pub fn get_references(&self, uri: &str) -> (r: Vec<Reference>)
        ensures
            r@ == entry_or_empty(self.references_view(), uri@),
    {
        references_under(&self.references, uri)
    }

    /// Every reference named `name`, over all documents (in the map's order of
    /// documents).
    pub fn find_references_by_name(&self, name: &str) -> (r: Vec<Reference>)
        ensures
            exists|e: Seq<(Seq<char>, Seq<Reference>)>|
                lists_entries(e, self.references_view()) && r@ == named_references(
                    flatten(e),
                    name@,
                ),
    {
        let entries = reference_entries(&self.references);
        let ghost ev = reference_entries_view(entries@);
        let mut out: Vec<Reference> = Vec::new();
        let mut entries = entries;
        let mut i: usize = 0;
        assert(ev.take(0) =~= seq![]);
        while i < entries.len()
            invariant
                i <= entries@.len(),
                ev.len() == entries@.len(),
                forall|j: int| #![trigger entries@[j]] i <= j < ev.len() ==> entries@[j].1@ == ev[j].1,
                out@ == named_references(flatten(ev.take(i as int)), name@),
            decreases ev.len() - i,
        {
            let mut list = take_reference_list(&mut entries, i);
            assert(list@ == ev[i as int].1);
            let ghost whole = list@;
            let ghost o = out@;
            let mut k: usize = 0;
            while k < list.len()
                invariant
                    k <= list@.len(),
                    list@.len() == whole.len(),
                    forall|j: int| k <= j < whole.len() ==> list@[j] == whole[j],
                    out@ == o + named_references(whole.take(k as int), name@),
                decreases whole.len() - k,
            {
                proof {
                    assert(whole.take(k + 1).drop_last() =~= whole.take(k as int));
                    assert(whole.take(k + 1).last() == whole[k as int]);
                    reveal_with_fuel(Seq::filter, 1);
                }
                if str_eq(list[k].name.as_str(), name) {
                    let r = take_reference(&mut list, k);
                    out.push(r);
                    assert(o + named_references(whole.take(k as int), name@).push(whole[k as int])
                        =~= (o + named_references(whole.take(k as int), name@)).push(whole[k as int]));
                }
                k = k + 1;
            }
            proof {
                assert(whole.take(whole.len() as int) =~= whole);
                assert(ev.take(i + 1).drop_last() =~= ev.take(i as int));
                assert(ev.take(i + 1).last() == ev[i as int]);
                Seq::filter_distributes_over_add(flatten(ev.take(i as int)), whole, |x: Reference| x.name@ == name@);
            }
            i = i + 1;
        }
        assert(ev.take(ev.len() as int) =~= ev);
        assert(lists_entries(ev, self.references_view()));
        assert(out@ == named_references(flatten(ev), name@));
        out
    }

    /// Forgets the references of the document `uri`.
    pub fn clear_references(&mut self, uri: &str)
        ensures
            final(self).symbols_view() == old(self).symbols_view(),
            final(self).references_view() == old(self).references_view().remove(uri@),
    {
        remove_references(&mut self.references, uri);
    }
}

/// The owned copy of a URI, used as a map key.
fn uri_string(uri: &str) -> (s: String)
    ensures
        s@ == uri@,
{
    crate::text::string_of(&crate::text::chars_of(uri))
}

/// Moves the symbol at `i` out of `v`, leaving a placeholder behind.
fn take_symbol(v: &mut Vec<Symbol>, i: usize) -> (s: Symbol)
    requires
        i < old(v)@.len(),
    ensures
        s == old(v)@[i as int],
        final(v)@.len() == old(v)@.len(),
        forall|j: int| 0 <= j < old(v)@.len() && j != i ==> final(v)@[j] == old(v)@[j],
{
    let placeholder = Symbol::new(String::new(), SymbolKind::Unknown, Range::new(Position::new(0, 0), Position::new(0, 0)));
    let mut s = placeholder;
    std::mem::swap(&mut s, &mut v[i]);
    s
}

fn take_reference(v: &mut Vec<Reference>, i: usize) -> (r: Reference)
    requires
        i < old(v)@.len(),
    ensures
        r == old(v)@[i as int],
        final(v)@.len() == old(v)@.len(),
        forall|j: int| 0 <= j < old(v)@.len() && j != i ==> final(v)@[j] == old(v)@[j],
{
    let mut r = Reference {
        name: String::new(),
        range: Range::new(Position::new(0, 0), Position::new(0, 0)),
        uri: None,
    };
    std::mem::swap(&mut r, &mut v[i]);
    r
}

fn take_list(v: &mut Vec<(String, Vec<Symbol>)>, i: usize) -> (l: Vec<Symbol>)
    requires
        i < old(v)@.len(),
    ensures
        l == old(v)@[i as int].1,
        final(v)@.len() == old(v)@.len(),
        forall|j: int| 0 <= j < old(v)@.len() && j != i ==> final(v)@[j] == old(v)@[j],
{
    let mut l: Vec<Symbol> = Vec::new();
    std::mem::swap(&mut l, &mut v[i].1);
    l
}

fn take_reference_list(v: &mut Vec<(String, Vec<Reference>)>, i: usize) -> (l: Vec<Reference>)
    requires
        i < old(v)@.len(),
    ensures
        l == old(v)@[i as int].1,
        final(v)@.len() == old(v)@.len(),
        forall|j: int| 0 <= j < old(v)@.len() && j != i ==> final(v)@[j] == old(v)@[j],
{
    let mut l: Vec<Reference> = Vec::new();
    std::mem::swap(&mut l, &mut v[i].1);
    l
}

impl Default for SymbolTable {
    fn default() -> (t: Self)
        ensures
            t.symbols_view().dom() == Set::<Seq<char>>::empty(),
            t.references_view().dom() == Set::<Seq<char>>::empty(),
    {
        Self::new()
    }
}

/// Reading a document's symbols after recording one gives what it gave
/// before, then the new symbol tagged with the document; every other
/// document reads as before.
pub proof fn recorded_symbol_reads_back(
    before: Map<Seq<char>, Seq<Symbol>>,
    after: Map<Seq<char>, Seq<Symbol>>,
    uri: Seq<char>,
    s: Symbol,
    other: Seq<char>,
)
    requires
        symbol_recorded(before, after, uri, s),
    ensures
        entry_or_empty(after, uri) == entry_or_empty(before, uri).push(
            entry_or_empty(after, uri).last(),
        ),
        symbol_in(entry_or_empty(after, uri).last(), s, uri),
        other != uri ==> entry_or_empty(after, other) == entry_or_empty(before, other),
{
    let l = entry_or_empty(after, uri);
    assert(l =~= l.drop_last().push(l.last()));
    if other != uri {
        assert(after.contains_key(other) == before.contains_key(other));
    }
}

/// Reading a document's references after recording one gives what it gave
/// before, then the new reference tagged with the document; every other
/// document reads as before.
pub proof fn recorded_reference_reads_back(
    before: Map<Seq<char>, Seq<Reference>>,
    after: Map<Seq<char>, Seq<Reference>>,
    uri: Seq<char>,
    r: Reference,
    other: Seq<char>,
)
    requires
        reference_recorded(before, after, uri, r),
    ensures
        entry_or_empty(after, uri) == entry_or_empty(before, uri).push(
            entry_or_empty(after, uri).last(),
        ),
        reference_in(entry_or_empty(after, uri).last(), r, uri),
        other != uri ==> entry_or_empty(after, other) == entry_or_empty(before, other),
{
    let l = entry_or_empty(after, uri);
    assert(l =~= l.drop_last().push(l.last()));
    if other != uri {
        assert(after.contains_key(other) == before.contains_key(other));
    }
}

/// After a document is cleared it reads empty, and every other document
/// reads as before.
pub proof fn cleared_document_reads_empty<T>(m: Map<Seq<char>, Seq<T>>, uri: Seq<char>, other: Seq<char>)
    ensures
        entry_or_empty(m.remove(uri), uri).len() == 0,
        other != uri ==> entry_or_empty(m.remove(uri), other) == entry_or_empty(m, other),
{
}

} // verus!
