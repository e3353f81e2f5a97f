//! What the outline of a document is sure to hold.
use vstd::prelude::*;

use crate::parser::outline::{
    add_module, callable_name_node, callable_params, dedup_by_name, embedded_in, fe_in,
    from_stmt, from_stmt_in, from_vardecl, functions_from_error, has_name, insert_by_name,
    module_name_node, sort_by_name, symbols_of, traverse, traverse_in, visit, SpecSymbol,
};
use crate::parser::references::{nodes_in_context, nodes_in_context_in};
use crate::symbols::SymbolKind;
use crate::syntax::{child_of_kind, first_of_kind, node_range, SyntaxNode};

verus! {

/// `b` is `a` with symbols appended.
pub open spec fn keeps(a: Seq<SpecSymbol>, b: Seq<SpecSymbol>) -> bool {
    a.len() <= b.len() && forall|i: int| 0 <= i < a.len() ==> #[trigger] b[i] == a[i]
}

proof fn lemma_keeps_trans(a: Seq<SpecSymbol>, b: Seq<SpecSymbol>, c: Seq<SpecSymbol>)
    requires
        keeps(a, b),
        keeps(b, c),
    ensures
        keeps(a, c),
{
    assert forall|i: int| 0 <= i < a.len() implies #[trigger] c[i] == a[i] by {
        assert(c[i] == b[i]);
    }
}

proof fn lemma_keeps_names(a: Seq<SpecSymbol>, b: Seq<SpecSymbol>, name: Seq<char>)
    requires
        keeps(a, b),
        has_name(a, name),
    ensures
        has_name(b, name),
{
    let i = choose|i: int| 0 <= i < a.len() && a[i].name == name;
    assert(b[i] == a[i]);
}

proof fn lemma_push_keeps(a: Seq<SpecSymbol>, x: SpecSymbol)
    ensures
        keeps(a, a.push(x)),
        has_name(a.push(x), x.name),
{
    assert forall|i: int| 0 <= i < a.len() implies #[trigger] a.push(x)[i] == a[i] by {}
    assert(a.push(x)[a.len() as int] == x);
}

proof fn lemma_add_module_keeps(syms: Seq<SpecSymbol>, id: Option<SyntaxNode>, unique: bool)
    ensures
        keeps(syms, add_module(syms, id, unique)),
{
    match id {
        Some(x) => {
            lemma_push_keeps(
                syms,
                crate::parser::outline::mk(
                    x.text@,
                    crate::symbols::SymbolKind::Module,
                    crate::syntax::node_range(x),
                    Some(crate::parser::outline::DOC_INCOMPLETE_MODULE@),
                ),
            );
        },
        None => {},
    }
}

proof fn lemma_from_stmt_keeps(n: SyntaxNode, syms: Seq<SpecSymbol>)
    ensures
        keeps(syms, from_stmt(n, syms)),
    decreases n,
{
    let s1 = match first_of_kind(n, "ERROR"@) {
        Some(err) => add_module(syms, crate::parser::outline::after_module(err, false).0, false),
        None => syms,
    };
    match first_of_kind(n, "ERROR"@) {
        Some(err) => lemma_add_module_keeps(
            syms,
            crate::parser::outline::after_module(err, false).0,
            false,
        ),
        None => {},
    }
    let s2 = add_module(s1, crate::parser::outline::after_module(n, false).0, true);
    lemma_add_module_keeps(s1, crate::parser::outline::after_module(n, false).0, true);
    lemma_from_stmt_in_keeps(n.children@, s2);
    lemma_keeps_trans(syms, s1, s2);
    lemma_keeps_trans(syms, s2, from_stmt_in(n.children@, s2));
}

proof fn lemma_from_stmt_in_keeps(s: Seq<SyntaxNode>, syms: Seq<SpecSymbol>)
    ensures
        keeps(syms, from_stmt_in(s, syms)),
    decreases s,
{
    if s.len() > 0 {
        let k = s[0].kind@;
        let next = if k == "moduleStmt"@ || k == "moduleDef"@ {
            from_stmt(s[0], syms)
        } else {
            syms
        };
        if k == "moduleStmt"@ || k == "moduleDef"@ {
            lemma_from_stmt_keeps(s[0], syms);
        }
        lemma_from_stmt_in_keeps(s.drop_first(), next);
        lemma_keeps_trans(syms, next, from_stmt_in(s.drop_first(), next));
    }
}

proof fn lemma_embedded_in_keeps(s: Seq<SyntaxNode>, syms: Seq<SpecSymbol>)
    ensures
        keeps(syms, embedded_in(s, syms)),
    decreases s.len(),
{
    if s.len() > 0 {
        let next = if s[0].kind@ == "moduleStmt"@ {
            from_stmt(s[0], syms)
        } else {
            syms
        };
        if s[0].kind@ == "moduleStmt"@ {
            lemma_from_stmt_keeps(s[0], syms);
        }
        lemma_embedded_in_keeps(s.drop_first(), next);
        lemma_keeps_trans(syms, next, embedded_in(s.drop_first(), next));
    }
}

proof fn lemma_from_vardecl_keeps(n: SyntaxNode, syms: Seq<SpecSymbol>)
    ensures
        keeps(syms, from_vardecl(n, syms)),
{
    let r = from_vardecl(n, syms);
    if r != syms {
        assert(r.len() == syms.len() + 1 && r.drop_last() == syms) by {
            assert(r == syms.push(r.last()));
        }
        assert forall|i: int| 0 <= i < syms.len() implies #[trigger] r[i] == syms[i] by {
            assert(r.drop_last()[i] == r[i]);
        }
    }
}

proof fn lemma_functions_from_error_keeps(n: SyntaxNode, syms: Seq<SpecSymbol>)
    ensures
        keeps(syms, functions_from_error(n, syms)),
    decreases n,
{
    let s1 = match first_of_kind(n, "functionProto"@) {
        Some(p) => match crate::parser::outline::name_from_proto(p) {
            Some(name) => if !has_name(syms, name) {
                syms.push(
                    crate::parser::outline::mk(
                        name,
                        crate::symbols::SymbolKind::Function,
                        crate::syntax::node_range(p),
                        Some(crate::parser::outline::DOC_FUNCTION_FROM_ERROR@),
                    ),
                )
            } else {
                syms
            },
            None => syms,
        },
        None => syms,
    };
    if s1 != syms {
        assert(s1.drop_last() == syms);
        assert forall|i: int| 0 <= i < syms.len() implies #[trigger] s1[i] == syms[i] by {
            assert(s1.drop_last()[i] == s1[i]);
        }
    }
    let s2 = from_vardecl(n, s1);
    lemma_from_vardecl_keeps(n, s1);
    lemma_fe_in_keeps(n.children@, s2);
    lemma_keeps_trans(syms, s1, s2);
    lemma_keeps_trans(syms, s2, fe_in(n.children@, s2));
}

proof fn lemma_fe_in_keeps(s: Seq<SyntaxNode>, syms: Seq<SpecSymbol>)
    ensures
        keeps(syms, fe_in(s, syms)),
    decreases s,
{
    if s.len() > 0 {
        let next = if s[0].kind@ != "ERROR"@ {
            functions_from_error(s[0], syms)
        } else {
            syms
        };
        if s[0].kind@ != "ERROR"@ {
            lemma_functions_from_error_keeps(s[0], syms);
        }
        lemma_fe_in_keeps(s.drop_first(), next);
        lemma_keeps_trans(syms, next, fe_in(s.drop_first(), next));
    }
}

/// The symbol a node itself stands for in the outline: a module definition
/// its module (named by the identifier of its prototype, or after `module`
/// when it has errors); a function or method definition its function or
/// method, with its parameters; a variable declaration the variable named
/// by the first identifier under its `lValue`. Only nodes with a non-empty
/// name count.
pub open spec fn outline_symbol(m: SyntaxNode) -> Option<SpecSymbol> {
    let k = m.kind@;
    if k == "moduleDef"@ {
        match module_name_node(m) {
            Some(x) => if x.text@.len() > 0 {
                Some(
                    SpecSymbol {
                        name: x.text@,
                        kind: SymbolKind::Module,
                        range: node_range(x),
                        documentation: None,
                        params: seq![],
                    },
                )
            } else {
                None
            },
            None => None,
        }
    } else if k == "functionDef"@ || k == "methodDef"@ {
        match callable_name_node(m) {
            Some(x) => if x.text@.len() > 0 {
                Some(
                    SpecSymbol {
                        name: x.text@,
                        kind: if k == "methodDef"@ {
                            SymbolKind::Method
                        } else {
                            SymbolKind::Function
                        },
                        range: node_range(x),
                        documentation: None,
                        params: callable_params(m),
                    },
                )
            } else {
                None
            },
            None => None,
        }
    } else if k == "varDecl"@ {
        match child_of_kind(m.children@, "lValue"@) {
            Some(lv) => match first_of_kind(lv, "identifier"@) {
                Some(x) => if x.text@.len() > 0 {
                    Some(
                        SpecSymbol {
                            name: x.text@,
                            kind: SymbolKind::Variable,
                            range: node_range(x),
                            documentation: None,
                            params: seq![],
                        },
                    )
                } else {
                    None
                },
                None => None,
            },
            None => None,
        }
    } else {
        None
    }
}

proof fn lemma_keeps_contains(a: Seq<SpecSymbol>, b: Seq<SpecSymbol>, x: SpecSymbol)
    requires
        keeps(a, b),
        a.contains(x),
    ensures
        b.contains(x),
{
    let i = choose|i: int| 0 <= i < a.len() && a[i] == x;
    assert(b[i] == a[i]);
}

proof fn lemma_push_or_same(a: Seq<SpecSymbol>, b: Seq<SpecSymbol>)
    requires
        b == a || (b.len() > 0 && b == a.push(b.last())),
    ensures
        keeps(a, b),
{
    if b != a {
        lemma_push_keeps(a, b.last());
    }
}

proof fn lemma_kinds_differ()
    ensures
        "ERROR"@ != "moduleDef"@ && "ERROR"@ != "functionDef"@ && "ERROR"@ != "methodDef"@
            && "ERROR"@ != "varDecl"@,
        "moduleDef"@ != "functionDef"@ && "moduleDef"@ != "methodDef"@ && "moduleDef"@
            != "varDecl"@,
        "functionDef"@ != "methodDef"@ && "functionDef"@ != "varDecl"@ && "methodDef"@
            != "varDecl"@,
{
    reveal_strlit("ERROR");
    reveal_strlit("moduleDef");
    reveal_strlit("functionDef");
    reveal_strlit("methodDef");
    reveal_strlit("varDecl");
    assert("ERROR"@[0] != "moduleDef"@[0] && "ERROR"@[0] != "functionDef"@[0]
        && "ERROR"@[0] != "methodDef"@[0] && "ERROR"@[0] != "varDecl"@[0]);
    assert("moduleDef"@[0] != "functionDef"@[0] && "moduleDef"@[1] != "methodDef"@[1]
        && "moduleDef"@[0] != "varDecl"@[0]);
    assert("functionDef"@[0] != "methodDef"@[0] && "functionDef"@[0] != "varDecl"@[0]
        && "methodDef"@[0] != "varDecl"@[0]);
}

proof fn lemma_visit_keeps(n: SyntaxNode, syms: Seq<SpecSymbol>)
    ensures
        keeps(syms, visit(n, syms)),
        outline_symbol(n) matches Some(x) ==> visit(n, syms).contains(x),
{
    let k = n.kind@;
    let s1 = if k == "ERROR"@ {
        match crate::parser::outline::module_from_error(n) {
            Some(x) => if x.text@.len() > 0 {
                syms.push(
                    crate::parser::outline::mk(
                        x.text@,
                        crate::symbols::SymbolKind::Module,
                        crate::syntax::node_range(x),
                        Some(crate::parser::outline::DOC_ERROR_MODULE@),
                    ),
                )
            } else {
                syms
            },
            None => syms,
        }
    } else {
        syms
    };
    lemma_push_or_same(syms, s1);
    let s2 = if k == "moduleDef"@ {
        let s = match crate::parser::outline::module_name_node(n) {
            Some(x) => if x.text@.len() > 0 {
                s1.push(
                    crate::parser::outline::mk(
                        x.text@,
                        crate::symbols::SymbolKind::Module,
                        crate::syntax::node_range(x),
                        None,
                    ),
                )
            } else {
                s1
            },
            None => s1,
        };
        lemma_push_or_same(s1, s);
        if !crate::parser::outline::has_valid_endmodule(n) {
            lemma_embedded_in_keeps(n.children@, s);
            lemma_keeps_trans(s1, s, embedded_in(n.children@, s));
            embedded_in(n.children@, s)
        } else {
            s
        }
    } else {
        s1
    };
    lemma_keeps_trans(syms, s1, s2);
    let s3 = if k == "functionDef"@ || k == "methodDef"@ {
        match crate::parser::outline::callable_name_node(n) {
            Some(x) => if x.text@.len() > 0 {
                s2.push(
                    SpecSymbol {
                        name: x.text@,
                        kind: if k == "methodDef"@ {
                            crate::symbols::SymbolKind::Method
                        } else {
                            crate::symbols::SymbolKind::Function
                        },
                        range: crate::syntax::node_range(x),
                        documentation: None,
                        params: crate::parser::outline::callable_params(n),
                    },
                )
            } else {
                s2
            },
            None => s2,
        }
    } else {
        s2
    };
    lemma_push_or_same(s2, s3);
    lemma_keeps_trans(syms, s2, s3);
    let s4 = if k == "ERROR"@ {
        functions_from_error(n, s3)
    } else {
        s3
    };
    if k == "ERROR"@ {
        lemma_functions_from_error_keeps(n, s3);
    }
    lemma_keeps_trans(syms, s3, s4);
    let r = visit(n, syms);
    lemma_push_or_same(s4, r);
    lemma_keeps_trans(syms, s4, r);
    if outline_symbol(n) is Some {
        lemma_kinds_differ();
        let x = outline_symbol(n)->0;
        if k == "varDecl"@ {
            assert(r[r.len() - 1] == x);
        } else if k == "moduleDef"@ {
            assert(s1 == syms);
            let sm = s1.push(x);
            assert(sm[sm.len() - 1] == x);
            assert(sm.contains(x));
            if !crate::parser::outline::has_valid_endmodule(n) {
                lemma_embedded_in_keeps(n.children@, sm);
                lemma_keeps_contains(sm, embedded_in(n.children@, sm), x);
            }
            assert(s2.contains(x));
            lemma_keeps_trans(s2, s3, s4);
            lemma_keeps_trans(s2, s4, r);
            lemma_keeps_contains(s2, r, x);
        } else {
            assert(s3[s3.len() - 1] == x);
            lemma_keeps_trans(s3, s4, r);
            lemma_keeps_contains(s3, r, x);
        }
    }
}

proof fn lemma_traverse_keeps(
    n: SyntaxNode,
    syms: Seq<SpecSymbol>,
    p: Option<Seq<char>>,
    g: Option<Seq<char>>,
)
    ensures
        keeps(syms, traverse(n, syms)),
        forall|j: int|
            0 <= j < nodes_in_context(n, p, g).len() && (#[trigger] outline_symbol(
                nodes_in_context(n, p, g)[j].0,
            )) is Some ==> traverse(n, syms).contains(
                outline_symbol(nodes_in_context(n, p, g)[j].0)->0,
            ),
    decreases n,
{
    let v = visit(n, syms);
    let inner = nodes_in_context_in(n.children@, Some(n.kind@), p);
    let c = nodes_in_context(n, p, g);
    lemma_visit_keeps(n, syms);
    lemma_traverse_in_keeps(n.children@, v, Some(n.kind@), p);
    lemma_keeps_trans(syms, v, traverse(n, syms));
    assert(c == seq![(n, p, g)] + inner);
    assert forall|j: int|
        0 <= j < c.len() && (#[trigger] outline_symbol(c[j].0)) is Some implies traverse(
        n,
        syms,
    ).contains(outline_symbol(c[j].0)->0) by {
        if j == 0 {
            assert(c[0].0 == n);
            lemma_keeps_contains(v, traverse(n, syms), outline_symbol(n)->0);
        } else {
            assert(c[j] == inner[j - 1]);
            assert(outline_symbol(inner[j - 1].0) is Some);
        }
    }
}

proof fn lemma_traverse_in_keeps(
    s: Seq<SyntaxNode>,
    syms: Seq<SpecSymbol>,
    p: Option<Seq<char>>,
    g: Option<Seq<char>>,
)
    ensures
        keeps(syms, traverse_in(s, syms)),
        forall|j: int|
            0 <= j < nodes_in_context_in(s, p, g).len() && (#[trigger] outline_symbol(
                nodes_in_context_in(s, p, g)[j].0,
            )) is Some ==> traverse_in(s, syms).contains(
                outline_symbol(nodes_in_context_in(s, p, g)[j].0)->0,
            ),
    decreases s,
{
    if s.len() > 0 {
        let t = traverse(s[0], syms);
        let a = nodes_in_context(s[0], p, g);
        let b = nodes_in_context_in(s.drop_first(), p, g);
        let c = nodes_in_context_in(s, p, g);
        lemma_traverse_keeps(s[0], syms, p, g);
        lemma_traverse_in_keeps(s.drop_first(), t, p, g);
        lemma_keeps_trans(syms, t, traverse_in(s, syms));
        assert(c == a + b);
        assert forall|j: int|
            0 <= j < c.len() && (#[trigger] outline_symbol(c[j].0)) is Some implies traverse_in(
            s,
            syms,
        ).contains(outline_symbol(c[j].0)->0) by {
            if j < a.len() {
                assert(c[j] == a[j]);
                assert(outline_symbol(a[j].0) is Some);
                lemma_keeps_contains(t, traverse_in(s, syms), outline_symbol(c[j].0)->0);
            } else {
                assert(c[j] == b[j - a.len()]);
                assert(outline_symbol(b[j - a.len()].0) is Some);
            }
        }
    } else {
        assert(nodes_in_context_in(s, p, g).len() == 0);
    }
}

proof fn lemma_insert_keeps_name(sorted: Seq<SpecSymbol>, x: SpecSymbol, name: Seq<char>)
    requires
        has_name(sorted, name) || x.name == name,
    ensures
        has_name(insert_by_name(sorted, x), name),
    decreases sorted.len(),
{
    if sorted.len() == 0 {
        assert(seq![x][0] == x);
    } else if crate::parser::references::text_le(sorted.last().name, x.name) {
        lemma_push_keeps(sorted, x);
        if has_name(sorted, name) {
            lemma_keeps_names(sorted, sorted.push(x), name);
        }
    } else {
        let d = sorted.drop_last();
        let r = insert_by_name(d, x);
        lemma_push_keeps(r, sorted.last());
        if sorted.last().name == name {
        } else {
            if x.name != name {
                let i = choose|i: int| 0 <= i < sorted.len() && sorted[i].name == name;
                assert(d[i] == sorted[i]);
            }
            lemma_insert_keeps_name(d, x, name);
            lemma_keeps_names(r, r.push(sorted.last()), name);
        }
    }
}

proof fn lemma_sort_keeps_name(s: Seq<SpecSymbol>, name: Seq<char>)
    requires
        has_name(s, name),
    ensures
        has_name(sort_by_name(s), name),
    decreases s.len(),
{
    let d = s.drop_last();
    if s.last().name == name {
        lemma_insert_keeps_name(sort_by_name(d), s.last(), name);
    } else {
        let i = choose|i: int| 0 <= i < s.len() && s[i].name == name;
        assert(d[i] == s[i]);
        lemma_sort_keeps_name(d, name);
        lemma_insert_keeps_name(sort_by_name(d), s.last(), name);
    }
}

proof fn lemma_dedup_keeps_name(s: Seq<SpecSymbol>, name: Seq<char>)
    requires
        has_name(s, name),
    ensures
        has_name(dedup_by_name(s), name),
    decreases s.len(),
{
    let d = s.drop_last();
    let dd = dedup_by_name(d);
    if s.last().name == name {
        if dd.len() > 0 && dd.last().name == s.last().name {
            assert(dd[dd.len() - 1].name == name);
        } else {
            lemma_push_keeps(dd, s.last());
        }
    } else {
        let i = choose|i: int| 0 <= i < s.len() && s[i].name == name;
        assert(d[i] == s[i]);
        lemma_dedup_keeps_name(d, name);
        if !(dd.len() > 0 && dd.last().name == s.last().name) {
            lemma_push_keeps(dd, s.last());
            lemma_keeps_names(dd, dd.push(s.last()), name);
        }
    }
}

/// Every module, function, method and variable that a node of the tree
/// defines (see `outline_symbol`) is found, as that symbol, by the walk of
/// the tree, and its name is among the document's symbols (sorted by name,
/// one per name).
pub proof fn defined_symbols_are_outlined(tree: SyntaxNode)
    ensures
        forall|j: int|
            0 <= j < nodes_in_context(tree, None, None).len() && (#[trigger] outline_symbol(
                nodes_in_context(tree, None, None)[j].0,
            )) is Some ==> traverse(tree, seq![]).contains(
                outline_symbol(nodes_in_context(tree, None, None)[j].0)->0,
            ) && has_name(
                symbols_of(tree),
                (outline_symbol(nodes_in_context(tree, None, None)[j].0)->0).name,
            ),
{
    let c = nodes_in_context(tree, None, None);
    let t = traverse(tree, seq![]);
    lemma_traverse_keeps(tree, seq![], None, None);
    assert forall|j: int|
        0 <= j < c.len() && (#[trigger] outline_symbol(c[j].0)) is Some implies t.contains(
        outline_symbol(c[j].0)->0,
    ) && has_name(symbols_of(tree), (outline_symbol(c[j].0)->0).name) by {
        let x = outline_symbol(c[j].0)->0;
        let k = choose|k: int| 0 <= k < t.len() && t[k] == x;
        assert(t[k].name == x.name);
        lemma_sort_keeps_name(t, x.name);
        lemma_dedup_keeps_name(sort_by_name(t), x.name);
    }
}

} // verus!
