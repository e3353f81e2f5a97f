//! The symbols a document defines: modules, functions, methods and variables,
//! found also in code that does not parse cleanly.
use vstd::prelude::*;

use crate::parser::references::{text_le, text_le_exec};
use crate::position::Range;
use crate::symbols::{ParameterInfo, Symbol, SymbolKind};
use crate::syntax::{
    child_of_kind, contains_identifier_text, find_child_of_kind, find_first_of_kind,
    first_of_kind, has_identifier_text, has_kind, kind_is, node_range, node_to_range, SyntaxNode,
};
use crate::text::{chars_of, contains_seq, str_eq};

verus! {

pub const DOC_ERROR_MODULE: &'static str = "[Error recovery] Module definition with syntax errors";

pub const DOC_INCOMPLETE_MODULE: &'static str =
    "[Error recovery] Module extracted from incomplete definition";

pub const DOC_FUNCTION_FROM_ERROR: &'static str =
    "[Error recovery] Function extracted from ERROR node";

pub const DOC_FUNCTION_FROM_VARDECL: &'static str =
    "[Error recovery] Function extracted from variable declaration";

/// A symbol as plain values (its document and container are unset).
pub ghost struct SpecSymbol {
    pub name: Seq<char>,
    pub kind: SymbolKind,
    pub range: Range,
    pub documentation: Option<Seq<char>>,
    pub params: Seq<(Seq<char>, Option<Seq<char>>)>,
}

pub open spec fn opt_text(o: Option<String>) -> Option<Seq<char>> {
    match o {
        Some(s) => Some(s@),
        None => None,
    }
}

pub open spec fn params_view(v: Seq<ParameterInfo>) -> Seq<(Seq<char>, Option<Seq<char>>)> {
    Seq::new(v.len(), |i: int| (v[i].name@, opt_text(v[i].param_type)))
}

pub open spec fn symbol_view(s: Symbol) -> SpecSymbol {
    SpecSymbol {
        name: s.name@,
        kind: s.kind,
        range: s.range,
        documentation: opt_text(s.documentation),
        params: params_view(s.parameters@),
    }
}

pub open spec fn symbols_view(v: Seq<Symbol>) -> Seq<SpecSymbol> {
    Seq::new(v.len(), |i: int| symbol_view(v[i]))
}

/// Every symbol has no document and no container.
pub open spec fn unplaced(v: Seq<Symbol>) -> bool {
    forall|i: int| 0 <= i < v.len() ==> (#[trigger] v[i]).uri is None && v[i].container is None
}

/// A symbol as the walk of a tree makes it: with a name, of the kind of a
/// module, function, method or variable, with parameters only when it is a
/// function or a method, and with no document or container.
pub open spec fn fresh_symbol(s: Symbol) -> bool {
    &&& s.uri is None
    &&& s.container is None
    &&& s.name@.len() > 0
    &&& (s.kind is Module || s.kind is Function || s.kind is Method || s.kind is Variable)
    &&& (s.parameters@.len() > 0 ==> s.kind is Function || s.kind is Method)
}

/// Every symbol is fresh.
pub open spec fn all_fresh(v: Seq<Symbol>) -> bool {
    forall|i: int| 0 <= i < v.len() ==> fresh_symbol(#[trigger] v[i])
}

/// `new` is `old` with fresh symbols appended.
pub open spec fn appends_fresh(old: Seq<Symbol>, new: Seq<Symbol>) -> bool {
    &&& old.len() <= new.len()
    &&& forall|i: int| 0 <= i < old.len() ==> #[trigger] new[i] == old[i]
    &&& forall|i: int| old.len() <= i < new.len() ==> fresh_symbol(#[trigger] new[i])
}

pub open spec fn mk(
    name: Seq<char>,
    kind: SymbolKind,
    range: Range,
    doc: Option<Seq<char>>,
) -> SpecSymbol {
    SpecSymbol { name, kind, range, documentation: doc, params: seq![] }
}

/// Some symbol of `syms` is named `name`.
pub open spec fn has_name(syms: Seq<SpecSymbol>, name: Seq<char>) -> bool {
    exists|i: int| 0 <= i < syms.len() && syms[i].name == name
}

/// The first `identifier` among `s` after a `module` keyword (one seen
/// before, when `found`).
pub open spec fn after_keyword(s: Seq<SyntaxNode>, found: bool) -> Option<SyntaxNode>
    decreases s.len(),
{
    if s.len() == 0 {
        None
    } else if s[0].kind@ == "module"@ {
        after_keyword(s.drop_first(), true)
    } else if found && s[0].kind@ == "identifier"@ {
        Some(s[0])
    } else {
        after_keyword(s.drop_first(), found)
    }
}

/// The `identifier` child of the child of kind `k`.
pub open spec fn ident_under(n: SyntaxNode, k: Seq<char>) -> Option<SyntaxNode> {
    match child_of_kind(n.children@, k) {
        Some(p) => child_of_kind(p.children@, "identifier"@),
        None => None,
    }
}

/// The node naming a module definition: the identifier of its prototype,
/// or, in a definition with errors, the first identifier after `module`.
pub open spec fn module_name_node(n: SyntaxNode) -> Option<SyntaxNode> {
    let s1 = ident_under(n, "moduleProto"@);
    if s1 is Some {
        s1
    } else if n.has_error {
        after_keyword(n.children@, false)
    } else {
        None
    }
}

/// A statement that may hold a module definition the parser did not see:
/// it has an error, an `ERROR` node, or an identifier `module`.
pub open spec fn might_contain_module(c: SyntaxNode) -> bool {
    c.has_error || has_kind(c, "ERROR"@) || has_identifier_text(c, "module"@)
}

/// The index of the first node of kind `k` among `s`, or `s.len()`.
pub open spec fn index_of_kind(s: Seq<SyntaxNode>, k: Seq<char>) -> int
    decreases s.len(),
{
    if s.len() == 0 {
        0
    } else if s[0].kind@ == k {
        0
    } else {
        1 + index_of_kind(s.drop_first(), k)
    }
}

/// The module definition ends with `endmodule`, and no statement before it may
/// hold another module.
pub open spec fn has_valid_endmodule(n: SyntaxNode) -> bool {
    let s = n.children@;
    let pos = index_of_kind(s, "endmodule"@);
    pos < s.len() && forall|i: int|
        0 <= i < pos ==> !((#[trigger] s[i]).kind@ == "moduleStmt"@ && might_contain_module(s[i]))
}

/// Walks `n` in pre-order for the first identifier after an identifier
/// `module`; `found` says whether such an identifier was seen before. Gives
/// the identifier found and whether `module` has been seen.
pub open spec fn after_module(n: SyntaxNode, found: bool) -> (Option<SyntaxNode>, bool)
    decreases n,
{
    let f1 = if n.kind@ == "identifier"@ && n.text@ == "module"@ {
        true
    } else {
        found
    };
    if n.kind@ == "identifier"@ && n.text@ != "module"@ && found {
        (Some(n), found)
    } else {
        after_module_in(n.children@, f1)
    }
}

pub open spec fn after_module_in(s: Seq<SyntaxNode>, found: bool) -> (Option<SyntaxNode>, bool)
    decreases s,
{
    if s.len() == 0 {
        (None, found)
    } else {
        let r = after_module(s[0], found);
        if r.0 is Some {
            r
        } else {
            after_module_in(s.drop_first(), r.1)
        }
    }
}

/// Adds a module named by `id`, unless its text is empty or `module`, or
/// (when `unique`) a symbol of that name is there already.
pub open spec fn add_module(
    syms: Seq<SpecSymbol>,
    id: Option<SyntaxNode>,
    unique: bool,
) -> Seq<SpecSymbol> {
    match id {
        Some(x) => if x.text@.len() > 0 && x.text@ != "module"@ && !(unique && has_name(
            syms,
            x.text@,
        )) {
            syms.push(
                mk(x.text@, SymbolKind::Module, node_range(x), Some(DOC_INCOMPLETE_MODULE@)),
            )
        } else {
            syms
        },
        None => syms,
    }
}

/// The modules found in a statement that may hide module definitions.
pub open spec fn from_stmt(n: SyntaxNode, syms: Seq<SpecSymbol>) -> Seq<SpecSymbol>
    decreases n,
{
    let s1 = match first_of_kind(n, "ERROR"@) {
        Some(err) => add_module(syms, after_module(err, false).0, false),
        None => syms,
    };
    let s2 = add_module(s1, after_module(n, false).0, true);
    from_stmt_in(n.children@, s2)
}

pub open spec fn from_stmt_in(s: Seq<SyntaxNode>, syms: Seq<SpecSymbol>) -> Seq<SpecSymbol>
    decreases s,
{
    if s.len() == 0 {
        syms
    } else {
        let k = s[0].kind@;
        from_stmt_in(
            s.drop_first(),
            if k == "moduleStmt"@ || k == "moduleDef"@ {
                from_stmt(s[0], syms)
            } else {
                syms
            },
        )
    }
}

/// The modules found in the module statements among `s`.
pub open spec fn embedded_in(s: Seq<SyntaxNode>, syms: Seq<SpecSymbol>) -> Seq<SpecSymbol>
    decreases s.len(),
{
    if s.len() == 0 {
        syms
    } else {
        embedded_in(
            s.drop_first(),
            if s[0].kind@ == "moduleStmt"@ {
                from_stmt(s[0], syms)
            } else {
                syms
            },
        )
    }
}

/// The node naming a function or method definition.
pub open spec fn callable_name_node(n: SyntaxNode) -> Option<SyntaxNode> {
    if n.kind@ == "methodDef"@ {
        let s1 = child_of_kind(n.children@, "identifier"@);
        if s1 is Some {
            s1
        } else if n.has_error {
            first_of_kind(n, "identifier"@)
        } else {
            None
        }
    } else if n.kind@ == "functionDef"@ {
        let s1 = match child_of_kind(n.children@, "functionProto"@) {
            Some(p) => ident_under(p, "functionType"@),
            None => None,
        };
        if s1 is Some {
            s1
        } else if n.has_error {
            first_of_kind(n, "identifier"@)
        } else {
            None
        }
    } else {
        None
    }
}

/// The node naming a module in an `ERROR` node.
pub open spec fn module_from_error(n: SyntaxNode) -> Option<SyntaxNode>
    decreases n,
{
    let s1 = ident_under(n, "moduleProto"@);
    if s1 is Some {
        s1
    } else {
        err_after(n.children@, false)
    }
}

pub open spec fn err_after(s: Seq<SyntaxNode>, found: bool) -> Option<SyntaxNode>
    decreases s,
{
    if s.len() == 0 {
        None
    } else if s[0].kind@ == "module"@ {
        err_after(s.drop_first(), true)
    } else if found && s[0].kind@ == "identifier"@ {
        Some(s[0])
    } else if found && s[0].kind@ == "ERROR"@ {
        match module_from_error(s[0]) {
            Some(x) => Some(x),
            None => err_after(s.drop_first(), found),
        }
    } else {
        err_after(s.drop_first(), found)
    }
}

/// The name in a function prototype.
pub open spec fn name_from_proto(p: SyntaxNode) -> Option<Seq<char>> {
    match ident_under(p, "functionType"@) {
        Some(id) => if id.text@.len() > 0 {
            Some(id.text@)
        } else {
            None
        },
        None => None,
    }
}

/// A function that the parser read as a variable declaration: a `varDecl`
/// with a type, whose initialiser's text holds `(` and `)`.
pub open spec fn from_vardecl(n: SyntaxNode, syms: Seq<SpecSymbol>) -> Seq<SpecSymbol> {
    if n.kind@ != "varDecl"@ {
        syms
    } else {
        let has_type = child_of_kind(n.children@, "type"@) is Some;
        match child_of_kind(n.children@, "varInit"@) {
            Some(vi) => if has_type && contains_seq(vi.text@, "("@) && contains_seq(vi.text@, ")"@) {
                match ident_under(vi, "lValue"@) {
                    Some(id) => if id.text@.len() > 0 && !has_name(syms, id.text@) {
                        syms.push(
                            mk(
                                id.text@,
                                SymbolKind::Function,
                                node_range(id),
                                Some(DOC_FUNCTION_FROM_VARDECL@),
                            ),
                        )
                    } else {
                        syms
                    },
                    None => syms,
                }
            } else {
                syms
            },
            None => syms,
        }
    }
}

/// The functions found in an `ERROR` node and its descendants (not entering
/// nested `ERROR` nodes).
pub open spec fn functions_from_error(n: SyntaxNode, syms: Seq<SpecSymbol>) -> Seq<SpecSymbol>
    decreases n,
{
    let s1 = match first_of_kind(n, "functionProto"@) {
        Some(p) => match name_from_proto(p) {
            Some(name) => if !has_name(syms, name) {
                syms.push(
                    mk(name, SymbolKind::Function, node_range(p), Some(DOC_FUNCTION_FROM_ERROR@)),
                )
            } else {
                syms
            },
            None => syms,
        },
        None => syms,
    };
    fe_in(n.children@, from_vardecl(n, s1))
}

pub open spec fn fe_in(s: Seq<SyntaxNode>, syms: Seq<SpecSymbol>) -> Seq<SpecSymbol>
    decreases s,
{
    if s.len() == 0 {
        syms
    } else {
        fe_in(
            s.drop_first(),
            if s[0].kind@ != "ERROR"@ {
                functions_from_error(s[0], syms)
            } else {
                syms
            },
        )
    }
}

/// A parameter's name and type, read from its children: the last type node
/// and the last identifier.
pub open spec fn formal_param(
    s: Seq<SyntaxNode>,
    name: Option<Seq<char>>,
    ty: Option<Seq<char>>,
) -> (Seq<char>, Option<Seq<char>>)
    decreases s.len(),
{
    if s.len() == 0 {
        (
            match name {
                Some(x) => x,
                None => seq![],
            },
            ty,
        )
    } else {
        let k = s[0].kind@;
        if k == "type"@ || k == "functionType"@ || k == "subFunctionType"@ {
            formal_param(s.drop_first(), name, Some(s[0].text@))
        } else if k == "identifier"@ {
            formal_param(s.drop_first(), Some(s[0].text@), ty)
        } else {
            formal_param(s.drop_first(), name, ty)
        }
    }
}

pub open spec fn is_formal_kind(k: Seq<char>) -> bool {
    k == "functionFormal"@ || k == "methodFormal"@ || k == "subFunctionFormal"@
}

/// The parameters among the formals `s`.
pub open spec fn params_in(s: Seq<SyntaxNode>) -> Seq<(Seq<char>, Option<Seq<char>>)>
    decreases s.len(),
{
    if s.len() == 0 {
        seq![]
    } else {
        let rest = params_in(s.drop_last());
        if is_formal_kind(s.last().kind@) {
            rest.push(formal_param(s.last().children@, None, None))
        } else {
            rest
        }
    }
}

/// The formals node of a function or method definition.
pub open spec fn formals_node(n: SyntaxNode) -> Option<SyntaxNode> {
    if n.kind@ == "functionDef"@ {
        match child_of_kind(n.children@, "functionProto"@) {
            Some(p) => match child_of_kind(p.children@, "functionType"@) {
                Some(ft) => child_of_kind(ft.children@, "functionFormals"@),
                None => None,
            },
            None => None,
        }
    } else if n.kind@ == "methodDef"@ {
        child_of_kind(n.children@, "methodFormals"@)
    } else {
        None
    }
}

/// The parameters of a function or method definition.
pub open spec fn callable_params(n: SyntaxNode) -> Seq<(Seq<char>, Option<Seq<char>>)> {
    match formals_node(n) {
        Some(f) => params_in(f.children@),
        None => seq![],
    }
}

/// The symbols that one node adds, before its children are walked.
pub open spec fn visit(n: SyntaxNode, syms: Seq<SpecSymbol>) -> Seq<SpecSymbol> {
    let k = n.kind@;
    let s1 = if k == "ERROR"@ {
        match module_from_error(n) {
            Some(x) => if x.text@.len() > 0 {
                syms.push(mk(x.text@, SymbolKind::Module, node_range(x), Some(DOC_ERROR_MODULE@)))
            } else {
                syms
            },
            None => syms,
        }
    } else {
        syms
    };
    let s2 = if k == "moduleDef"@ {
        let s = match module_name_node(n) {
            Some(x) => if x.text@.len() > 0 {
                s1.push(mk(x.text@, SymbolKind::Module, node_range(x), None))
            } else {
                s1
            },
            None => s1,
        };
        if !has_valid_endmodule(n) {
            embedded_in(n.children@, s)
        } else {
            s
        }
    } else {
        s1
    };
    let s3 = if k == "functionDef"@ || k == "methodDef"@ {
        match callable_name_node(n) {
            Some(x) => if x.text@.len() > 0 {
                s2.push(
                    SpecSymbol {
                        name: x.text@,
                        kind: if k == "methodDef"@ {
                            SymbolKind::Method
                        } else {
                            SymbolKind::Function
                        },
                        range: node_range(x),
                        documentation: None,
                        params: callable_params(n),
                    },
                )
            } else {
                s2
            },
            None => s2,
        }
    } else {
        s2
    };
    let s4 = if k == "ERROR"@ {
        functions_from_error(n, s3)
    } else {
        s3
    };
    if k == "varDecl"@ {
        match child_of_kind(n.children@, "lValue"@) {
            Some(lv) => match first_of_kind(lv, "identifier"@) {
                Some(x) => if x.text@.len() > 0 {
                    s4.push(mk(x.text@, SymbolKind::Variable, node_range(x), None))
                } else {
                    s4
                },
                None => s4,
            },
            None => s4,
        }
    } else {
        s4
    }
}

/// The symbols of the tree `n`, walked in pre-order, after `syms`.
pub open spec fn traverse(n: SyntaxNode, syms: Seq<SpecSymbol>) -> Seq<SpecSymbol>
    decreases n,
{
    traverse_in(n.children@, visit(n, syms))
}

pub open spec fn traverse_in(s: Seq<SyntaxNode>, syms: Seq<SpecSymbol>) -> Seq<SpecSymbol>
    decreases s,
{
    if s.len() == 0 {
        syms
    } else {
        traverse_in(s.drop_first(), traverse(s[0], syms))
    }
}

pub open spec fn insert_by_name(sorted: Seq<SpecSymbol>, x: SpecSymbol) -> Seq<SpecSymbol>
    decreases sorted.len(),
{
    if sorted.len() == 0 {
        seq![x]
    } else if text_le(sorted.last().name, x.name) {
        sorted.push(x)
    } else {
        insert_by_name(sorted.drop_last(), x).push(sorted.last())
    }
}

/// `s` sorted by name, keeping the order of symbols of the same name.
pub open spec fn sort_by_name(s: Seq<SpecSymbol>) -> Seq<SpecSymbol>
    decreases s.len(),
{
    if s.len() == 0 {
        seq![]
    } else {
        insert_by_name(sort_by_name(s.drop_last()), s.last())
    }
}

/// `s` without each symbol whose name repeats that of the one kept before it.
pub open spec fn dedup_by_name(s: Seq<SpecSymbol>) -> Seq<SpecSymbol>
    decreases s.len(),
{
    if s.len() == 0 {
        seq![]
    } else {
        let d = dedup_by_name(s.drop_last());
        if d.len() > 0 && d.last().name == s.last().name {
            d
        } else {
            d.push(s.last())
        }
    }
}

/// The symbols of a document: everything the walk finds, sorted by name,
/// one symbol per name.
pub open spec fn symbols_of(tree: SyntaxNode) -> Seq<SpecSymbol> {
    dedup_by_name(sort_by_name(traverse(tree, seq![])))
}

// ---------------------------------------------------------------------------
// Executable walk
// ---------------------------------------------------------------------------

fn copy_string(s: &String) -> (r: String)
    ensures
        r@ == s@,
{
    s.clone()
}

fn make_symbol(name: &String, kind: SymbolKind, range: Range, doc: Option<&str>) -> (r: Symbol)
    ensures
        symbol_view(r) == mk(
            name@,
            kind,
            range,
            match doc {
                Some(d) => Some(d@),
                None => None,
            },
        ),
        r.uri is None,
        r.container is None,
        r.name@ == name@,
        r.kind == kind,
        r.parameters@.len() == 0,
{
    let documentation = match doc {
        Some(d) => Some(crate::text::string_of(&chars_of(d))),
        None => None,
    };
    let r = Symbol {
        name: copy_string(name),
        kind,
        range,
        uri: None,
        container: None,
        documentation,
        parameters: Vec::new(),
    };
    assert(params_view(r.parameters@) =~= seq![]);
    r
}

proof fn lemma_push_symbol(v: Seq<Symbol>, s: Symbol)
    requires
        fresh_symbol(s),
    ensures
        symbols_view(v.push(s)) == symbols_view(v).push(symbol_view(s)),
        appends_fresh(v, v.push(s)),
{
    assert(symbols_view(v.push(s)) =~= symbols_view(v).push(symbol_view(s)));
}

fn push_symbol(syms: &mut Vec<Symbol>, s: Symbol)
    requires
        fresh_symbol(s),
    ensures
        symbols_view(final(syms)@) == symbols_view(old(syms)@).push(symbol_view(s)),
        appends_fresh(old(syms)@, final(syms)@),
{
    proof {
        lemma_push_symbol(syms@, s);
    }
    syms.push(s);
}

fn has_name_exec(syms: &Vec<Symbol>, name: &String) -> (b: bool)
    ensures
        b == has_name(symbols_view(syms@), name@),
{
    let mut i: usize = 0;
    while i < syms.len()
        invariant
            i <= syms@.len(),
            forall|j: int| 0 <= j < i ==> syms@[j].name@ != name@,
        decreases syms@.len() - i,
    {
        if str_eq(syms[i].name.as_str(), name.as_str()) {
            assert(symbols_view(syms@)[i as int].name == name@);
            return true;
        }
        i = i + 1;
    }
    proof {
        if has_name(symbols_view(syms@), name@) {
            let j = choose|j: int| 0 <= j < symbols_view(syms@).len() && symbols_view(syms@)[j].name
                == name@;
            assert(syms@[j].name@ == name@);
        }
    }
    false
}

fn find_after_keyword<'a>(n: &'a SyntaxNode) -> (r: Option<&'a SyntaxNode>)
    ensures
        r matches Some(x) ==> after_keyword(n.children@, false) == Some(*x),
        r is None ==> after_keyword(n.children@, false) is None,
{
    let mut found = false;
    let mut i: usize = 0;
    assert(n.children@.skip(0) =~= n.children@);
    while i < n.children.len()
        invariant
            i <= n.children@.len(),
            after_keyword(n.children@, false) == after_keyword(n.children@.skip(i as int), found),
        decreases n.children@.len() - i,
    {
        proof {
            assert(n.children@.skip(i as int)[0] == n.children@[i as int]);
            assert(n.children@.skip(i as int).drop_first() =~= n.children@.skip(i + 1));
        }
        let c = &n.children[i];
        if kind_is(c, "module") {
            found = true;
        } else if found && kind_is(c, "identifier") {
            return Some(c);
        }
        i = i + 1;
    }
    None
}

fn find_ident_under<'a>(n: &'a SyntaxNode, k: &str) -> (r: Option<&'a SyntaxNode>)
    ensures
        r matches Some(x) ==> ident_under(*n, k@) == Some(*x),
        r is None ==> ident_under(*n, k@) is None,
{
    match find_child_of_kind(n, k) {
        Some(p) => find_child_of_kind(p, "identifier"),
        None => None,
    }
}

fn get_module_name_node<'a>(n: &'a SyntaxNode) -> (r: Option<&'a SyntaxNode>)
    ensures
        r matches Some(x) ==> module_name_node(*n) == Some(*x),
        r is None ==> module_name_node(*n) is None,
{
    match find_ident_under(n, "moduleProto") {
        Some(x) => Some(x),
        None => {
            if n.has_error {
                find_after_keyword(n)
            } else {
                None
            }
        },
    }
}

fn might_contain_module_exec(c: &SyntaxNode) -> (b: bool)
    ensures
        b == might_contain_module(*c),
{
    if c.has_error {
        return true;
    }
    if find_first_of_kind(c, "ERROR").is_some() {
        return true;
    }
    contains_identifier_text(c, "module")
}

fn has_valid_endmodule_exec(n: &SyntaxNode) -> (b: bool)
    ensures
        b == has_valid_endmodule(*n),
{
    let s = &n.children;
    let mut pos: usize = 0;
    let ghost kw = "endmodule"@;
    assert(s@.skip(0) =~= s@);
    while pos < s.len() && !kind_is(&s[pos], "endmodule")
        invariant
            pos <= s@.len(),
            index_of_kind(s@, kw) == pos + index_of_kind(s@.skip(pos as int), kw),
            kw == "endmodule"@,
        decreases s@.len() - pos,
    {
        proof {
            assert(s@.skip(pos as int)[0] == s@[pos as int]);
            assert(s@.skip(pos as int).drop_first() =~= s@.skip(pos + 1));
        }
        pos = pos + 1;
    }
    proof {
        if pos < s@.len() {
            assert(s@.skip(pos as int)[0] == s@[pos as int]);
        }
    }
    if pos == s.len() {
        return false;
    }
    assert(index_of_kind(s@, "endmodule"@) == pos);
    let mut i: usize = 0;
    while i < pos
        invariant
            i <= pos < s@.len(),
            s@ == n.children@,
            index_of_kind(s@, "endmodule"@) == pos,
            forall|j: int|
                0 <= j < i ==> !((#[trigger] s@[j]).kind@ == "moduleStmt"@ && might_contain_module(
                    s@[j],
                )),
        decreases pos - i,
    {
        if kind_is(&s[i], "moduleStmt") && might_contain_module_exec(&s[i]) {
            assert(index_of_kind(s@, "endmodule"@) == pos);
            assert((s@[i as int]).kind@ == "moduleStmt"@ && might_contain_module(s@[i as int]));
            return false;
        }
        i = i + 1;
    }
    true
}

/// The first identifier after an identifier `module`, walking in pre-order.
fn find_after_module<'a>(n: &'a SyntaxNode, found: &mut bool) -> (r: Option<&'a SyntaxNode>)
    ensures
        (match r {
            Some(x) => Some(*x),
            None => None,
        }, *final(found)) == after_module(*n, *old(found)),
    decreases n,
{
    let is_ident = kind_is(n, "identifier");
    if is_ident {
        if str_eq(n.text.as_str(), "module") {
            *found = true;
        } else if *found {
            return Some(n);
        }
    }
    let mut i: usize = 0;
    assert(n.children@.skip(0) =~= n.children@);
    while i < n.children.len()
        invariant
            i <= n.children@.len(),
            after_module(*n, *old(found)) == after_module_in(n.children@.skip(i as int), *found),
        decreases n.children@.len() - i,
    {
        proof {
            assert(n.children@.skip(i as int)[0] == n.children@[i as int]);
            assert(n.children@.skip(i as int).drop_first() =~= n.children@.skip(i + 1));
        }
        match find_after_module(&n.children[i], found) {
            Some(x) => {
                return Some(x);
            },
            None => {},
        }
        i = i + 1;
    }
    None
}

fn add_module_exec(syms: &mut Vec<Symbol>, id: Option<&SyntaxNode>, unique: bool)
    ensures
        symbols_view(final(syms)@) == add_module(
            symbols_view(old(syms)@),
            match id {
                Some(x) => Some(*x),
                None => None,
            },
            unique,
        ),
        appends_fresh(old(syms)@, final(syms)@),
{
    if let Some(x) = id {
        if !x.text.as_str().is_empty() && !str_eq(x.text.as_str(), "module") {
            if !(unique && has_name_exec(syms, &x.text)) {
                let s = make_symbol(
                    &x.text,
                    SymbolKind::Module,
                    node_to_range(x),
                    Some(DOC_INCOMPLETE_MODULE),
                );
                push_symbol(syms, s);
            }
        }
    }
}

fn try_extract_module_from_stmt(n: &SyntaxNode, syms: &mut Vec<Symbol>)
    ensures
        symbols_view(final(syms)@) == from_stmt(*n, symbols_view(old(syms)@)),
        appends_fresh(old(syms)@, final(syms)@),
    decreases n,
{
    let ghost start = syms@;
    match find_first_of_kind(n, "ERROR") {
        Some(err) => {
            let mut f = false;
            let id = find_after_module(err, &mut f);
            add_module_exec(syms, id, false);
        },
        None => {},
    }
    let mut f = false;
    let id = find_after_module(n, &mut f);
    add_module_exec(syms, id, true);
    let mut i: usize = 0;
    assert(n.children@.skip(0) =~= n.children@);
    let ghost s2 = symbols_view(syms@);
    while i < n.children.len()
        invariant
            i <= n.children@.len(),
            appends_fresh(start, syms@),
            from_stmt_in(n.children@, s2) == from_stmt_in(
                n.children@.skip(i as int),
                symbols_view(syms@),
            ),
        decreases n.children@.len() - i,
    {
        proof {
            assert(n.children@.skip(i as int)[0] == n.children@[i as int]);
            assert(n.children@.skip(i as int).drop_first() =~= n.children@.skip(i + 1));
        }
        let c = &n.children[i];
        if kind_is(c, "moduleStmt") || kind_is(c, "moduleDef") {
            try_extract_module_from_stmt(c, syms);
        }
        i = i + 1;
    }
}

fn extract_embedded_modules(n: &SyntaxNode, syms: &mut Vec<Symbol>)
    ensures
        symbols_view(final(syms)@) == embedded_in(n.children@, symbols_view(old(syms)@)),
        appends_fresh(old(syms)@, final(syms)@),
{
    let ghost start = syms@;
    let mut i: usize = 0;
    assert(n.children@.skip(0) =~= n.children@);
    let ghost s0 = symbols_view(syms@);
    while i < n.children.len()
        invariant
            i <= n.children@.len(),
            appends_fresh(start, syms@),
            embedded_in(n.children@, s0) == embedded_in(
                n.children@.skip(i as int),
                symbols_view(syms@),
            ),
        decreases n.children@.len() - i,
    {
        proof {
            assert(n.children@.skip(i as int)[0] == n.children@[i as int]);
            assert(n.children@.skip(i as int).drop_first() =~= n.children@.skip(i + 1));
        }
        if kind_is(&n.children[i], "moduleStmt") {
            try_extract_module_from_stmt(&n.children[i], syms);
        }
        i = i + 1;
    }
}

fn get_callable_name_node<'a>(n: &'a SyntaxNode) -> (r: Option<&'a SyntaxNode>)
    ensures
        r matches Some(x) ==> callable_name_node(*n) == Some(*x),
        r is None ==> callable_name_node(*n) is None,
{
    if kind_is(n, "methodDef") {
        if let Some(id) = find_child_of_kind(n, "identifier") {
            return Some(id);
        }
        if n.has_error {
            return find_first_of_kind(n, "identifier");
        }
        return None;
    }
    if kind_is(n, "functionDef") {
        if let Some(proto) = find_child_of_kind(n, "functionProto") {
            if let Some(id) = find_ident_under(proto, "functionType") {
                return Some(id);
            }
        }
        if n.has_error {
            return find_first_of_kind(n, "identifier");
        }
    }
    None
}

fn try_extract_module_from_error<'a>(n: &'a SyntaxNode) -> (r: Option<&'a SyntaxNode>)
    ensures
        r matches Some(x) ==> module_from_error(*n) == Some(*x),
        r is None ==> module_from_error(*n) is None,
    decreases n,
{
    if let Some(id) = find_ident_under(n, "moduleProto") {
        return Some(id);
    }
    let mut found = false;
    let mut i: usize = 0;
    assert(n.children@.skip(0) =~= n.children@);
    while i < n.children.len()
        invariant
            i <= n.children@.len(),
            module_from_error(*n) == err_after(n.children@.skip(i as int), found),
        decreases n.children@.len() - i,
    {
        proof {
            assert(n.children@.skip(i as int)[0] == n.children@[i as int]);
            assert(n.children@.skip(i as int).drop_first() =~= n.children@.skip(i + 1));
        }
        let c = &n.children[i];
        if kind_is(c, "module") {
            found = true;
        } else if found && kind_is(c, "identifier") {
            return Some(c);
        } else if found && kind_is(c, "ERROR") {
            if let Some(x) = try_extract_module_from_error(c) {
                return Some(x);
            }
        }
        i = i + 1;
    }
    None
}

fn extract_function_name_from_proto(p: &SyntaxNode) -> (r: Option<&String>)
    ensures
        r matches Some(x) ==> name_from_proto(*p) == Some(x@),
        r is None ==> name_from_proto(*p) is None,
{
    match find_ident_under(p, "functionType") {
        Some(id) => if !id.text.as_str().is_empty() {
            Some(&id.text)
        } else {
            None
        },
        None => None,
    }
}

fn looks_like_function(n: &SyntaxNode) -> (b: bool)
    ensures
        b == (contains_seq(n.text@, "("@) && contains_seq(n.text@, ")"@)),
{
    let t = chars_of(n.text.as_str());
    let open = chars_of("(");
    let close = chars_of(")");
    crate::text::contains_chars(&t, &open) && crate::text::contains_chars(&t, &close)
}

fn extract_function_from_vardecl(n: &SyntaxNode, syms: &mut Vec<Symbol>)
    ensures
        symbols_view(final(syms)@) == from_vardecl(*n, symbols_view(old(syms)@)),
        appends_fresh(old(syms)@, final(syms)@),
{
    if !kind_is(n, "varDecl") {
        return;
    }
    let has_type = find_child_of_kind(n, "type").is_some();
    if let Some(vi) = find_child_of_kind(n, "varInit") {
        if has_type && looks_like_function(vi) {
            if let Some(id) = find_ident_under(vi, "lValue") {
                if !id.text.as_str().is_empty() && !has_name_exec(syms, &id.text) {
                    let s = make_symbol(
                        &id.text,
                        SymbolKind::Function,
                        node_to_range(id),
                        Some(DOC_FUNCTION_FROM_VARDECL),
                    );
                    push_symbol(syms, s);
                }
            }
        }
    }
}

fn extract_functions_from_error(n: &SyntaxNode, syms: &mut Vec<Symbol>)
    ensures
        symbols_view(final(syms)@) == functions_from_error(*n, symbols_view(old(syms)@)),
        appends_fresh(old(syms)@, final(syms)@),
    decreases n,
{
    let ghost start = syms@;
    if let Some(proto) = find_first_of_kind(n, "functionProto") {
        if let Some(name) = extract_function_name_from_proto(proto) {
            if !has_name_exec(syms, name) {
                let s = make_symbol(
                    name,
                    SymbolKind::Function,
                    node_to_range(proto),
                    Some(DOC_FUNCTION_FROM_ERROR),
                );
                push_symbol(syms, s);
            }
        }
    }
    extract_function_from_vardecl(n, syms);
    let mut i: usize = 0;
    assert(n.children@.skip(0) =~= n.children@);
    let ghost s2 = symbols_view(syms@);
    while i < n.children.len()
        invariant
            i <= n.children@.len(),
            appends_fresh(start, syms@),
            fe_in(n.children@, s2) == fe_in(n.children@.skip(i as int), symbols_view(syms@)),
        decreases n.children@.len() - i,
    {
        proof {
            assert(n.children@.skip(i as int)[0] == n.children@[i as int]);
            assert(n.children@.skip(i as int).drop_first() =~= n.children@.skip(i + 1));
        }
        if !kind_is(&n.children[i], "ERROR") {
            extract_functions_from_error(&n.children[i], syms);
        }
        i = i + 1;
    }
}

fn is_type_kind(n: &SyntaxNode) -> (b: bool)
    ensures
        b == (n.kind@ == "type"@ || n.kind@ == "functionType"@ || n.kind@ == "subFunctionType"@),
{
    kind_is(n, "type") || kind_is(n, "functionType") || kind_is(n, "subFunctionType")
}

/// A parameter's name and type, from the node of one formal parameter.
fn extract_formal_param(n: &SyntaxNode) -> (r: ParameterInfo)
    ensures
        (r.name@, opt_text(r.param_type)) == formal_param(n.children@, None, None),
{
    let mut param_type: Option<&String> = None;
    let mut param_name: Option<&String> = None;
    let mut i: usize = 0;
    assert(n.children@.skip(0) =~= n.children@);
    while i < n.children.len()
        invariant
            i <= n.children@.len(),
            formal_param(n.children@, None, None) == formal_param(
                n.children@.skip(i as int),
                match param_name {
                    Some(x) => Some(x@),
                    None => None,
                },
                match param_type {
                    Some(x) => Some(x@),
                    None => None,
                },
            ),
        decreases n.children@.len() - i,
    {
        proof {
            assert(n.children@.skip(i as int)[0] == n.children@[i as int]);
            assert(n.children@.skip(i as int).drop_first() =~= n.children@.skip(i + 1));
        }
        let c = &n.children[i];
        if is_type_kind(c) {
            param_type = Some(&c.text);
        } else if kind_is(c, "identifier") {
            param_name = Some(&c.text);
        }
        i = i + 1;
    }
    let name = match param_name {
        Some(x) => copy_string(x),
        None => String::new(),
    };
    let ty = match param_type {
        Some(x) => Some(copy_string(x)),
        None => None,
    };
    ParameterInfo::new(name, ty)
}

fn get_formals_node<'a>(n: &'a SyntaxNode) -> (r: Option<&'a SyntaxNode>)
    ensures
        r matches Some(x) ==> formals_node(*n) == Some(*x),
        r is None ==> formals_node(*n) is None,
{
    if kind_is(n, "functionDef") {
        match find_child_of_kind(n, "functionProto") {
            Some(p) => match find_child_of_kind(p, "functionType") {
                Some(ft) => find_child_of_kind(ft, "functionFormals"),
                None => None,
            },
            None => None,
        }
    } else if kind_is(n, "methodDef") {
        find_child_of_kind(n, "methodFormals")
    } else {
        None
    }
}

/// The parameters of a function or method definition.
fn extract_callable_params(n: &SyntaxNode) -> (r: Vec<ParameterInfo>)
    ensures
        params_view(r@) == callable_params(*n),
{
    let f = match get_formals_node(n) {
        Some(f) => f,
        None => {
            assert(params_view(Seq::<ParameterInfo>::empty()) =~= seq![]);
            return Vec::new();
        },
    };
    let mut params: Vec<ParameterInfo> = Vec::new();
    let mut i: usize = 0;
    assert(params_view(params@) =~= params_in(f.children@.take(0)));
    while i < f.children.len()
        invariant
            i <= f.children@.len(),
            params_view(params@) == params_in(f.children@.take(i as int)),
        decreases f.children@.len() - i,
    {
        let c = &f.children[i];
        proof {
            assert(f.children@.take(i + 1).drop_last() =~= f.children@.take(i as int));
            assert(f.children@.take(i + 1).last() == f.children@[i as int]);
        }
        if kind_is(c, "functionFormal") || kind_is(c, "methodFormal") || kind_is(
            c,
            "subFunctionFormal",
        ) {
            let p = extract_formal_param(c);
            let ghost old_p = params@;
            params.push(p);
            assert(params_view(params@) =~= params_view(old_p).push(
                formal_param(c.children@, None, None),
            ));
        }
        i = i + 1;
    }
    assert(f.children@.take(f.children@.len() as int) =~= f.children@);
    params
}

/// Adds the symbols that the node `n` itself gives.
fn visit_node(n: &SyntaxNode, syms: &mut Vec<Symbol>)
    ensures
        symbols_view(final(syms)@) == visit(*n, symbols_view(old(syms)@)),
        appends_fresh(old(syms)@, final(syms)@),
{
    let is_error = kind_is(n, "ERROR");
    if is_error {
        if let Some(x) = try_extract_module_from_error(n) {
            if !x.text.as_str().is_empty() {
                let s = make_symbol(
                    &x.text,
                    SymbolKind::Module,
                    node_to_range(x),
                    Some(DOC_ERROR_MODULE),
                );
                push_symbol(syms, s);
            }
        }
    }
    if kind_is(n, "moduleDef") {
        if let Some(x) = get_module_name_node(n) {
            if !x.text.as_str().is_empty() {
                let s = make_symbol(&x.text, SymbolKind::Module, node_to_range(x), None);
                push_symbol(syms, s);
            }
        }
        if !has_valid_endmodule_exec(n) {
            extract_embedded_modules(n, syms);
        }
    }
    let is_method = kind_is(n, "methodDef");
    if kind_is(n, "functionDef") || is_method {
        if let Some(x) = get_callable_name_node(n) {
            if !x.text.as_str().is_empty() {
                let params = extract_callable_params(n);
                let s = Symbol {
                    name: copy_string(&x.text),
                    kind: if is_method {
                        SymbolKind::Method
                    } else {
                        SymbolKind::Function
                    },
                    range: node_to_range(x),
                    uri: None,
                    container: None,
                    documentation: None,
                    parameters: params,
                };
                push_symbol(syms, s);
            }
        }
    }
    if is_error {
        extract_functions_from_error(n, syms);
    }
    if kind_is(n, "varDecl") {
        if let Some(lv) = find_child_of_kind(n, "lValue") {
            if let Some(x) = find_first_of_kind(lv, "identifier") {
                if !x.text.as_str().is_empty() {
                    let s = make_symbol(&x.text, SymbolKind::Variable, node_to_range(x), None);
                    push_symbol(syms, s);
                }
            }
        }
    }
}

/// Adds the symbols of the tree `n`, walked in pre-order.
fn traverse_node(n: &SyntaxNode, syms: &mut Vec<Symbol>)
    ensures
        symbols_view(final(syms)@) == traverse(*n, symbols_view(old(syms)@)),
        appends_fresh(old(syms)@, final(syms)@),
    decreases n,
{
    let ghost start = syms@;
    visit_node(n, syms);
    let mut i: usize = 0;
    assert(n.children@.skip(0) =~= n.children@);
    let ghost s1 = symbols_view(syms@);
    while i < n.children.len()
        invariant
            i <= n.children@.len(),
            appends_fresh(start, syms@),
            traverse_in(n.children@, s1) == traverse_in(
                n.children@.skip(i as int),
                symbols_view(syms@),
            ),
        decreases n.children@.len() - i,
    {
        proof {
            assert(n.children@.skip(i as int)[0] == n.children@[i as int]);
            assert(n.children@.skip(i as int).drop_first() =~= n.children@.skip(i + 1));
        }
        traverse_node(&n.children[i], syms);
        i = i + 1;
    }
}

proof fn lemma_insert_by_name(sorted: Seq<SpecSymbol>, x: SpecSymbol, j: int)
    requires
        0 <= j <= sorted.len(),
        forall|k: int| j <= k < sorted.len() ==> !text_le(#[trigger] sorted[k].name, x.name),
        j == 0 || text_le(sorted[j - 1].name, x.name),
    ensures
        insert_by_name(sorted, x) == sorted.take(j).push(x) + sorted.skip(j),
    decreases sorted.len(),
{
    if sorted.len() == 0 {
        assert(sorted.take(j).push(x) + sorted.skip(j) =~= seq![x]);
    } else if j == sorted.len() {
        assert(sorted.take(j) =~= sorted);
        assert(sorted.take(j).push(x) + sorted.skip(j) =~= sorted.push(x));
    } else {
        let d = sorted.drop_last();
        assert(!text_le(sorted[sorted.len() - 1].name, x.name));
        lemma_insert_by_name(d, x, j);
        assert(d.take(j) =~= sorted.take(j));
        assert((d.take(j).push(x) + d.skip(j)).push(sorted.last()) =~= sorted.take(j).push(x)
            + sorted.skip(j));
    }
}

fn name_le(a: &Symbol, b: &Symbol) -> (r: bool)
    ensures
        r == text_le(a.name@, b.name@),
{
    let an = chars_of(a.name.as_str());
    let bn = chars_of(b.name.as_str());
    text_le_exec(&an, &bn)
}

fn sort_symbols_by_name(v: Vec<Symbol>) -> (r: Vec<Symbol>)
    requires
        all_fresh(v@),
    ensures
        symbols_view(r@) == sort_by_name(symbols_view(v@)),
        all_fresh(r@),
{
    let ghost whole = symbols_view(v@);
    let mut out: Vec<Symbol> = Vec::new();
    let mut v = v;
    let ghost mut k: int = 0;
    assert(whole.take(0) =~= Seq::<SpecSymbol>::empty());
    assert(whole.skip(0) =~= whole);
    while v.len() > 0
        invariant
            0 <= k <= whole.len(),
            all_fresh(v@),
            all_fresh(out@),
            symbols_view(v@) == whole.skip(k),
            symbols_view(out@) == sort_by_name(whole.take(k)),
        decreases v@.len(),
    {
        let ghost v0 = v@;
        let x = v.remove(0);
        proof {
            assert(symbols_view(v0).len() == v0.len());
            assert(k < whole.len());
            assert(symbols_view(v0)[0] == whole.skip(k)[0]);
            assert forall|i: int| 0 <= i < v@.len() implies #[trigger] symbols_view(v@)[i]
                == whole.skip(k + 1)[i] by {
                assert(v@[i] == v0[i + 1]);
                assert(symbols_view(v0)[i + 1] == whole.skip(k)[i + 1]);
            }
            assert(symbols_view(v@) =~= whole.skip(k + 1));
            assert(fresh_symbol(x));
            assert forall|i: int| 0 <= i < v@.len() implies fresh_symbol(#[trigger] v@[i]) by {
                assert(v@[i] == v0[i + 1]);
            }
            assert(whole.take(k + 1).drop_last() =~= whole.take(k));
            assert(whole.take(k + 1).last() == symbol_view(x));
        }
        let mut j = out.len();
        while j > 0 && !name_le(&out[j - 1], &x)
            invariant
                j <= out@.len(),
                forall|q: int| j <= q < out@.len() ==> !text_le(#[trigger] out@[q].name@, x.name@),
            decreases j,
        {
            j = j - 1;
        }
        let ghost o = symbols_view(out@);
        let ghost ov = out@;
        out.insert(j, x);
        proof {
            assert forall|q: int| j <= q < o.len() implies !text_le(#[trigger] o[q].name, x.name@) by {
                assert(o[q].name == ov[q].name@);
            }
            lemma_insert_by_name(o, symbol_view(x), j as int);
            assert(symbols_view(out@) =~= o.take(j as int).push(symbol_view(x)) + o.skip(j as int));
            assert forall|i: int| 0 <= i < out@.len() implies fresh_symbol(#[trigger] out@[i]) by {
                if i < j {
                    assert(out@[i] == ov[i]);
                } else if i > j {
                    assert(out@[i] == ov[i - 1]);
                }
            }
            k = k + 1;
        }
    }
    proof {
        assert(whole.take(k) =~= whole);
    }
    out
}

fn dedup_symbols_by_name(v: Vec<Symbol>) -> (r: Vec<Symbol>)
    requires
        all_fresh(v@),
    ensures
        symbols_view(r@) == dedup_by_name(symbols_view(v@)),
        all_fresh(r@),
{
    let ghost whole = symbols_view(v@);
    let mut out: Vec<Symbol> = Vec::new();
    let mut v = v;
    let ghost mut k: int = 0;
    assert(whole.take(0) =~= Seq::<SpecSymbol>::empty());
    assert(whole.skip(0) =~= whole);
    while v.len() > 0
        invariant
            0 <= k <= whole.len(),
            all_fresh(v@),
            all_fresh(out@),
            symbols_view(v@) == whole.skip(k),
            symbols_view(out@) == dedup_by_name(whole.take(k)),
        decreases v@.len(),
    {
        let ghost v0 = v@;
        let x = v.remove(0);
        proof {
            assert(symbols_view(v0).len() == v0.len());
            assert(k < whole.len());
            assert(symbols_view(v0)[0] == whole.skip(k)[0]);
            assert forall|i: int| 0 <= i < v@.len() implies #[trigger] symbols_view(v@)[i]
                == whole.skip(k + 1)[i] by {
                assert(v@[i] == v0[i + 1]);
                assert(symbols_view(v0)[i + 1] == whole.skip(k)[i + 1]);
            }
            assert(symbols_view(v@) =~= whole.skip(k + 1));
            assert forall|i: int| 0 <= i < v@.len() implies fresh_symbol(#[trigger] v@[i]) by {
                assert(v@[i] == v0[i + 1]);
            }
            assert(whole.take(k + 1).drop_last() =~= whole.take(k));
            assert(whole.take(k + 1).last() == symbol_view(x));
        }
        let n = out.len();
        let same = n > 0 && str_eq(out[n - 1].name.as_str(), x.name.as_str());
        if !same {
            let ghost o = out@;
            out.push(x);
            proof {
                assert(symbols_view(out@) =~= symbols_view(o).push(symbol_view(x)));
                assert forall|i: int| 0 <= i < out@.len() implies fresh_symbol(#[trigger] out@[i]) by {
                    if i < o.len() {
                        assert(out@[i] == o[i]);
                    }
                }
            }
        }
        proof {
            k = k + 1;
        }
    }
    proof {
        assert(whole.take(k) =~= whole);
    }
    out
}

/// The symbols of a document's tree: modules, functions, methods (with their
/// parameters) and variables, also those recovered from code with syntax
/// errors, sorted by name with one symbol per name.
pub fn extract_symbols(tree: &SyntaxNode) -> (r: Vec<Symbol>)
    ensures
        symbols_view(r@) == symbols_of(*tree),
        unplaced(r@),
        all_fresh(r@),
{
    let mut syms: Vec<Symbol> = Vec::new();
    assert(symbols_view(syms@) =~= Seq::<SpecSymbol>::empty());
    traverse_node(tree, &mut syms);
    assert(all_fresh(syms@));
    let sorted = sort_symbols_by_name(syms);
    dedup_symbols_by_name(sorted)
}

} // verus!
