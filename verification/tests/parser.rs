use bsv_language_server::parser::calls::{count_top_level_commas, find_call_context};
use bsv_language_server::parser::folding::{collect_folding_ranges, FoldingRangeKind};
use bsv_language_server::parser::outline::extract_symbols;
use bsv_language_server::parser::references::extract_references;
use bsv_language_server::position::Position;
use bsv_language_server::symbols::SymbolKind;
use bsv_language_server::syntax::SyntaxNode;

fn node(kind: &str, start: (usize, usize), end: (usize, usize), text: &str, children: Vec<SyntaxNode>) -> SyntaxNode {
    SyntaxNode {
        kind: kind.to_string(),
        start_row: start.0,
        start_col: start.1,
        end_row: end.0,
        end_col: end.1,
        text: text.to_string(),
        has_error: false,
        children,
    }
}

fn leaf(kind: &str, row: usize, col: usize, text: &str) -> SyntaxNode {
    node(kind, (row, col), (row, col + text.chars().count()), text, vec![])
}

#[test]
fn test_count_top_level_commas() {
    assert_eq!(count_top_level_commas("42"), 0);
    assert_eq!(count_top_level_commas("a, b, c"), 2);
    assert_eq!(count_top_level_commas("a, foo(b, c), d"), 2);
    assert_eq!(count_top_level_commas("a, {b, c}, d"), 2);
    assert_eq!(count_top_level_commas("foo(a, b, c)"), 0);
}

#[test]
fn commas_after_unbalanced_closer_still_count() {
    assert_eq!(count_top_level_commas(") , ,"), 2);
    assert_eq!(count_top_level_commas("[a, b], c"), 1);
}

/// `module mkFoo();` / `rule r;` / `endrule` / `endmodule` as a tree.
fn module_with_rule() -> SyntaxNode {
    let proto = node(
        "moduleProto",
        (0, 0),
        (0, 15),
        "module mkFoo();",
        vec![leaf("module", 0, 0, "module"), leaf("identifier", 0, 7, "mkFoo")],
    );
    let rule = node(
        "rule",
        (1, 0),
        (2, 7),
        "rule r;\nendrule",
        vec![leaf("rule", 1, 0, "rule"), leaf("identifier", 1, 5, "r"), leaf("endrule", 2, 0, "endrule")],
    );
    let module = node(
        "moduleDef",
        (0, 0),
        (3, 9),
        "module mkFoo();\nrule r;\nendrule\nendmodule",
        vec![proto, rule, leaf("endmodule", 3, 0, "endmodule")],
    );
    node("sourceFile", (0, 0), (4, 0), "", vec![module])
}

#[test]
fn folding_blocks_end_before_closing_keyword() {
    let tree = module_with_rule();
    let source = "module mkFoo();\nrule r;\nendrule\nendmodule\n";
    let ranges = collect_folding_ranges(&tree, source);
    assert_eq!(ranges.len(), 2);
    assert_eq!((ranges[0].start_line, ranges[0].end_line), (0, 2));
    assert_eq!((ranges[1].start_line, ranges[1].end_line), (1, 2));
    assert_eq!(ranges[0].kind, Some(FoldingRangeKind::Region));
}

#[test]
fn folding_line_comment_runs_of_three() {
    let tree = node("sourceFile", (0, 0), (6, 0), "", vec![]);
    let source = "// line 1\n// line 2\n// line 3\n// line 4\nx\n// a\n// b\n";
    let ranges = collect_folding_ranges(&tree, source);
    assert_eq!(ranges.len(), 1);
    assert_eq!((ranges[0].start_line, ranges[0].end_line), (0, 3));
    assert_eq!(ranges[0].kind, Some(FoldingRangeKind::Comment));
}

#[test]
fn folding_block_comments_and_order() {
    let inner = node("moduleDef", (4, 0), (6, 9), "", vec![]);
    let tree = node("sourceFile", (0, 0), (7, 0), "", vec![inner]);
    let source = "/*\n * line 1\n */\n/* short */\nmodule a;\nx\nendmodule\n";
    let ranges = collect_folding_ranges(&tree, source);
    let starts: Vec<u32> = ranges.iter().map(|r| r.start_line).collect();
    assert_eq!(starts, vec![0, 4]);
    assert_eq!(ranges[0].end_line, 2);
    assert_eq!(ranges[1].end_line, 5);
}

#[test]
fn symbols_sorted_and_unique_by_name() {
    let tree = module_with_rule();
    let symbols = extract_symbols(&tree);
    assert_eq!(symbols.len(), 1);
    assert_eq!(symbols[0].name, "mkFoo");
    assert_eq!(symbols[0].kind, SymbolKind::Module);
    assert_eq!(symbols[0].range.start, Position { line: 0, character: 7 });
}

#[test]
fn function_symbol_with_parameters() {
    let formal_a = node(
        "functionFormal",
        (0, 22),
        (0, 32),
        "Bit#(32) a",
        vec![leaf("type", 0, 22, "Bit#(32)"), leaf("identifier", 0, 31, "a")],
    );
    let formals = node("functionFormals", (0, 21), (0, 33), "(Bit#(32) a)", vec![formal_a]);
    let ftype = node(
        "functionType",
        (0, 9),
        (0, 33),
        "",
        vec![leaf("type", 0, 9, "Bit#(32)"), leaf("identifier", 0, 18, "add"), formals],
    );
    let proto = node("functionProto", (0, 0), (0, 34), "", vec![leaf("function", 0, 0, "function"), ftype]);
    let def = node("functionDef", (0, 0), (2, 11), "", vec![proto]);
    let tree = node("sourceFile", (0, 0), (3, 0), "", vec![def]);
    let symbols = extract_symbols(&tree);
    let add = symbols.iter().find(|s| s.name == "add").expect("function found");
    assert_eq!(add.kind, SymbolKind::Function);
    assert_eq!(add.parameters.len(), 1);
    assert_eq!(add.parameters[0].name, "a");
    assert_eq!(add.parameters[0].param_type.as_deref(), Some("Bit#(32)"));
}

#[test]
fn references_skip_declarations_and_repeat() {
    // let x = y;  with `x` declared by its lValue under varDecl.
    let lvalue = node("lValue", (1, 8), (1, 9), "x", vec![leaf("identifier", 1, 8, "x")]);
    let expr = node("exprPrimary", (1, 12), (1, 13), "y", vec![leaf("identifier", 1, 12, "y")]);
    let decl = node("varDecl", (1, 4), (1, 14), "let x = y;", vec![leaf("let", 1, 4, "let"), lvalue, expr]);
    let expr2 = node("exprPrimary", (2, 12), (2, 13), "y", vec![leaf("identifier", 2, 12, "y")]);
    let again = node("exprPrimary", (2, 12), (2, 13), "y", vec![leaf("identifier", 2, 12, "y")]);
    let tree = node("sourceFile", (0, 0), (3, 0), "", vec![decl, expr2, again]);
    let refs = extract_references(&tree);
    let names: Vec<(&str, u32)> = refs.iter().map(|r| (r.name.as_str(), r.range.start.line)).collect();
    assert_eq!(names, vec![("y", 1), ("y", 2)]);
}

#[test]
fn call_context_names_callee_and_argument() {
    // add(a, b) on line 0 starting at column 4.
    let callee = node("exprPrimary", (0, 4), (0, 7), "add", vec![leaf("identifier", 0, 4, "add")]);
    let call = node(
        "functionCall",
        (0, 4),
        (0, 13),
        "add(a, b)",
        vec![
            callee,
            leaf("(", 0, 7, "("),
            leaf("identifier", 0, 8, "a"),
            leaf(",", 0, 9, ","),
            leaf("identifier", 0, 11, "b"),
            leaf(")", 0, 12, ")"),
        ],
    );
    let tree = node("sourceFile", (0, 0), (1, 0), "", vec![call]);
    let source = "x = add(a, b);\n";
    let ctx = find_call_context(&tree, source, Position { line: 0, character: 11 }).expect("in a call");
    assert_eq!(ctx.callable_name, "add");
    assert_eq!(ctx.argument_index, 1);
    let first = find_call_context(&tree, source, Position { line: 0, character: 8 }).expect("in a call");
    assert_eq!(first.argument_index, 0);
    assert!(find_call_context(&tree, source, Position { line: 0, character: 1 }).is_none());
}

/// The tree of `module mkFoo();` / `endmodule` on rows `row` and `row + 1`.
fn module_at(row: usize) -> SyntaxNode {
    let proto = node(
        "moduleProto",
        (row, 0),
        (row, 15),
        "module mkFoo();",
        vec![leaf("module", row, 0, "module"), leaf("identifier", row, 7, "mkFoo")],
    );
    node(
        "moduleDef",
        (row, 0),
        (row + 1, 9),
        "module mkFoo();\nendmodule",
        vec![proto, leaf("endmodule", row + 1, 0, "endmodule")],
    )
}

#[test]
fn test_folding_comment_block() {
    let source = "// line 1\n// line 2\n// line 3\n// line 4\nmodule mkFoo();\nendmodule\n";
    let tree = node("sourceFile", (0, 0), (6, 0), source, vec![module_at(4)]);
    let ranges = collect_folding_ranges(&tree, source);
    assert!(
        ranges
            .iter()
            .any(|r| r.kind == Some(FoldingRangeKind::Comment) && r.start_line == 0 && r.end_line == 3),
        "Expected comment folding range on lines 0-3, got: {:?}",
        ranges,
    );
}

#[test]
fn test_folding_no_short_comment_block() {
    let source = "// just one\n// just two\nmodule mkFoo();\nendmodule\n";
    let tree = node("sourceFile", (0, 0), (4, 0), source, vec![module_at(2)]);
    let ranges = collect_folding_ranges(&tree, source);
    assert!(
        !ranges.iter().any(|r| r.kind == Some(FoldingRangeKind::Comment)),
        "Should not fold 2 or fewer comment lines, got: {:?}",
        ranges,
    );
}

#[test]
fn test_folding_block_comment_multi_line() {
    let source = "/*\n * line 1\n * line 2\n */\nmodule mkFoo();\nendmodule\n";
    let tree = node("sourceFile", (0, 0), (6, 0), source, vec![module_at(4)]);
    let ranges = collect_folding_ranges(&tree, source);
    assert!(
        ranges
            .iter()
            .any(|r| r.kind == Some(FoldingRangeKind::Comment) && r.start_line == 0 && r.end_line == 3),
        "Expected block comment folding on lines 0-3, got: {:?}",
        ranges,
    );
}

#[test]
fn test_folding_short_block_comment_no_fold() {
    let source = "/* short */\nmodule mkFoo();\nendmodule\n";
    let tree = node("sourceFile", (0, 0), (3, 0), source, vec![module_at(1)]);
    let ranges = collect_folding_ranges(&tree, source);
    assert!(
        !ranges.iter().any(|r| r.kind == Some(FoldingRangeKind::Comment)),
        "Should not fold single-line block comment, got: {:?}",
        ranges,
    );
}

/// `module mkTest();` / `rule r;` / `let x = add(val, 5);` / `endrule` /
/// `endmodule`, down to the call.
fn call_in_rule() -> (String, SyntaxNode) {
    let source = "module mkTest();\n    rule r;\n        let x = add(val, 5);\n    endrule\nendmodule\n".to_string();
    let callee = node("exprPrimary", (2, 16), (2, 19), "add", vec![leaf("identifier", 2, 16, "add")]);
    let arg1 = node("exprPrimary", (2, 20), (2, 23), "val", vec![leaf("identifier", 2, 20, "val")]);
    let arg2 = node("exprPrimary", (2, 25), (2, 26), "5", vec![leaf("intLiteral", 2, 25, "5")]);
    let call = node(
        "functionCall",
        (2, 16),
        (2, 27),
        "add(val, 5)",
        vec![callee, leaf("(", 2, 19, "("), arg1, leaf(",", 2, 23, ","), arg2, leaf(")", 2, 26, ")")],
    );
    let decl = node(
        "varDecl",
        (2, 8),
        (2, 28),
        "let x = add(val, 5);",
        vec![
            leaf("let", 2, 8, "let"),
            node("lValue", (2, 12), (2, 13), "x", vec![leaf("identifier", 2, 12, "x")]),
            leaf("=", 2, 14, "="),
            call,
            leaf(";", 2, 27, ";"),
        ],
    );
    let rule = node(
        "rule",
        (1, 4),
        (3, 11),
        "",
        vec![leaf("rule", 1, 4, "rule"), leaf("identifier", 1, 9, "r"), leaf(";", 1, 10, ";"), decl, leaf("endrule", 3, 4, "endrule")],
    );
    let module = node("moduleDef", (0, 0), (4, 9), "", vec![rule]);
    let tree = node("sourceFile", (0, 0), (5, 0), "", vec![module]);
    (source, tree)
}

#[test]
fn test_find_call_context_function_call() {
    let (source, tree) = call_in_rule();
    let pos = Position { line: 2, character: 18 };
    let ctx = find_call_context(&tree, &source, pos);
    assert!(ctx.is_some(), "Expected call context for function call");
    if let Some(ctx) = ctx {
        assert_eq!(ctx.callable_name, "add");
        assert_eq!(ctx.argument_index, 0);
    }
}

#[test]
fn test_find_call_context_arg_index() {
    let (source, tree) = call_in_rule();
    let pos = Position { line: 2, character: 24 };
    let ctx = find_call_context(&tree, &source, pos);
    assert!(ctx.is_some(), "Expected call context for second argument");
    if let Some(ctx) = ctx {
        assert_eq!(ctx.callable_name, "add");
        assert_eq!(ctx.argument_index, 1);
    }
}

#[test]
fn call_spanning_lines_counts_commas_up_to_cursor() {
    let source = "f(a,\n  b,\n  c)\n";
    let call = node(
        "functionCall",
        (0, 0),
        (2, 4),
        "f(a,\n  b,\n  c)",
        vec![node("exprPrimary", (0, 0), (0, 1), "f", vec![leaf("identifier", 0, 0, "f")]), leaf("(", 0, 1, "(")],
    );
    let tree = node("sourceFile", (0, 0), (3, 0), source, vec![call]);
    let ctx = find_call_context(&tree, source, Position { line: 2, character: 2 }).expect("in the call");
    assert_eq!(ctx.callable_name, "f");
    assert_eq!(ctx.argument_index, 2);
}

#[test]
fn indented_call_spanning_lines_counts_commas_after_its_paren() {
    let source = "x = g(h(1), a,\n  b, c)\n";
    let call = node(
        "functionCall",
        (0, 4),
        (1, 8),
        "g(h(1), a,\n  b, c)",
        vec![node("exprPrimary", (0, 4), (0, 5), "g", vec![leaf("identifier", 0, 4, "g")]), leaf("(", 0, 5, "(")],
    );
    let tree = node("sourceFile", (0, 0), (2, 0), source, vec![call]);
    let ctx = find_call_context(&tree, source, Position { line: 1, character: 5 }).expect("in the call");
    assert_eq!(ctx.callable_name, "g");
    assert_eq!(ctx.argument_index, 3);
}

#[test]
fn bracketed_part_reads_as_removed() {
    assert_eq!(count_top_level_commas("a,(x,y),b"), count_top_level_commas("a,,b"));
    assert_eq!(count_top_level_commas("a,[x,y,z],b"), 2);
}

/// A block node of `kind` over rows `start` to `end`, the closing keyword at
/// column 0 of its last row.
fn block(kind: &str, start: usize, end: usize, children: Vec<SyntaxNode>) -> SyntaxNode {
    node(kind, (start, 0), (end, 9), "", children)
}

#[test]
fn test_folding_module_range() {
    let source = "module mkFoo();\n    rule r;\n        $display(\"hello\");\n    endrule\nendmodule\n";
    let module = block("moduleDef", 0, 4, vec![block("rule", 1, 3, vec![])]);
    let tree = node("sourceFile", (0, 0), (5, 0), source, vec![module]);
    let ranges = collect_folding_ranges(&tree, source);
    assert!(ranges.iter().any(|r| r.start_line == 0 && r.end_line == 3), "got: {:?}", ranges);
}

#[test]
fn test_folding_rule_range() {
    let source = "module mkDemo();\n    rule r;\n        let x = 1;\n        let y = 2;\n    endrule\nendmodule\n";
    let module = block("moduleDef", 0, 5, vec![block("rule", 1, 4, vec![])]);
    let tree = node("sourceFile", (0, 0), (6, 0), source, vec![module]);
    let ranges = collect_folding_ranges(&tree, source);
    assert!(ranges.iter().any(|r| r.start_line == 1 && r.end_line == 3), "got: {:?}", ranges);
}

#[test]
fn test_folding_function_range() {
    let source = "function Bit#(32) add(Bit#(32) a, Bit#(32) b);\n    return a + b;\nendfunction\n";
    let tree = node("sourceFile", (0, 0), (3, 0), source, vec![block("functionDef", 0, 2, vec![])]);
    let ranges = collect_folding_ranges(&tree, source);
    assert!(ranges.iter().any(|r| r.start_line == 0 && r.end_line == 1), "got: {:?}", ranges);
}

#[test]
fn test_folding_nested_blocks() {
    let source = "module mkTop();\n    rule r1;\n        $display(\"a\");\n    endrule\n    rule r2;\n        $display(\"b\");\n    endrule\nendmodule\n";
    let module = block("moduleDef", 0, 7, vec![block("rule", 1, 3, vec![]), block("rule", 4, 6, vec![])]);
    let tree = node("sourceFile", (0, 0), (8, 0), source, vec![module]);
    let ranges = collect_folding_ranges(&tree, source);
    assert!(ranges.iter().any(|r| r.start_line == 0 && r.end_line == 6));
    assert!(ranges.iter().any(|r| r.start_line == 1 && r.end_line == 2));
    assert!(ranges.iter().any(|r| r.start_line == 4 && r.end_line == 5));
    assert_eq!(ranges.len(), 3);
}

#[test]
fn test_folding_empty_document() {
    let tree = node("sourceFile", (0, 0), (0, 0), "", vec![]);
    let ranges = collect_folding_ranges(&tree, "");
    assert_eq!(ranges.len(), 0);
}

#[test]
fn test_folding_interface_range() {
    let source = "interface I;\n    method Bit#(8) get();\n    endmethod\nendinterface\n\ntypedef struct {\n    Bit#(8) field;\n} S deriving(Bits);\n";
    let iface = block("interfaceDecl", 0, 3, vec![block("methodDecl", 1, 2, vec![])]);
    let tdef = block("typedefStruct", 5, 7, vec![]);
    let tree = node("sourceFile", (0, 0), (8, 0), source, vec![iface, tdef]);
    let ranges = collect_folding_ranges(&tree, source);
    assert!(ranges.iter().any(|r| r.start_line == 0 && r.end_line == 2), "got: {:?}", ranges);
}

#[test]
fn test_folding_sorted_by_start_line() {
    let source = "module mkA(); endmodule\nmodule mkB(); endmodule\n";
    let a = node("moduleDef", (0, 0), (0, 23), "", vec![]);
    let b = node("moduleDef", (1, 0), (1, 23), "", vec![]);
    let tree = node("sourceFile", (0, 0), (2, 0), source, vec![b, a]);
    let ranges = collect_folding_ranges(&tree, source);
    for win in ranges.windows(2) {
        assert!(win[0].start_line <= win[1].start_line, "Folding ranges must be sorted by start_line");
    }
}

#[test]
fn test_folding_action_block() {
    let source = "module mkTest();\n    rule r;\n        action\n            $display(\"hi\");\n        endaction\n    endrule\nendmodule\n";
    let action = block("actionBlock", 2, 4, vec![]);
    let module = block("moduleDef", 0, 6, vec![block("rule", 1, 5, vec![action])]);
    let tree = node("sourceFile", (0, 0), (7, 0), source, vec![module]);
    let ranges = collect_folding_ranges(&tree, source);
    assert!(ranges.iter().any(|r| r.start_line == 2 && r.end_line == 3), "got: {:?}", ranges);
}

#[test]
fn test_folding_begin_end_expr() {
    let source = "module mkTest();\n    rule r;\n        action\n        begin\n            $display(\"a\");\n            $display(\"b\");\n        end\n        endaction\n    endrule\nendmodule\n";
    let begin = block("beginEndExpr", 3, 6, vec![]);
    let action = block("actionBlock", 2, 7, vec![begin]);
    let module = block("moduleDef", 0, 9, vec![block("rule", 1, 8, vec![action])]);
    let tree = node("sourceFile", (0, 0), (10, 0), source, vec![module]);
    let ranges = collect_folding_ranges(&tree, source);
    assert!(ranges.iter().any(|r| r.start_line == 3 && r.end_line == 5), "got: {:?}", ranges);
}

#[test]
fn test_reference_deduplication() {
    // module m();  /  let x = y;  /  let z = y;  /  endmodule
    let decl = |row: usize, name: &str| {
        let lvalue = node("lValue", (row, 8), (row, 9), name, vec![leaf("identifier", row, 8, name)]);
        let expr = node("exprPrimary", (row, 12), (row, 13), "y", vec![leaf("identifier", row, 12, "y")]);
        node("varDecl", (row, 4), (row, 14), "", vec![leaf("let", row, 4, "let"), lvalue, expr])
    };
    let module = node("moduleDef", (0, 0), (3, 9), "", vec![decl(1, "x"), decl(2, "z")]);
    let tree = node("sourceFile", (0, 0), (4, 0), "", vec![module]);
    let refs = extract_references(&tree);
    let y_count = refs.iter().filter(|r| r.name == "y").count();
    assert_eq!(y_count, 2, "Expected exactly 2 references to 'y', got {}", y_count);
}

#[test]
fn test_empty_source_no_references() {
    let tree = node("sourceFile", (0, 0), (0, 0), "", vec![]);
    let refs = extract_references(&tree);
    assert_eq!(refs.len(), 0);
}

/// `function Bit#(32) <name>(<formals>);` on row 0, closed on row 2.
fn function_def(name: &str, formals: Vec<(&str, &str)>) -> SyntaxNode {
    let mut col = 22;
    let mut nodes = Vec::new();
    for (ty, id) in formals {
        let text = format!("{} {}", ty, id);
        let len = text.len();
        nodes.push(node(
            "functionFormal",
            (0, col),
            (0, col + len),
            &text,
            vec![leaf("type", 0, col, ty), leaf("identifier", 0, col + ty.len() + 1, id)],
        ));
        col += len + 2;
    }
    let formals = node("functionFormals", (0, 21), (0, col), "", nodes);
    let ftype = node(
        "functionType",
        (0, 9),
        (0, col),
        "",
        vec![leaf("type", 0, 9, "Bit#(32)"), leaf("identifier", 0, 18, name), formals],
    );
    let proto = node("functionProto", (0, 0), (0, col + 1), "", vec![leaf("function", 0, 0, "function"), ftype]);
    node("functionDef", (0, 0), (2, 11), "", vec![proto])
}

#[test]
fn test_extract_function_params() {
    let tree = node("sourceFile", (0, 0), (3, 0), "", vec![function_def("add", vec![("Bit#(32)", "a"), ("Bit#(32)", "b")])]);
    let symbols = extract_symbols(&tree);
    let add = symbols.iter().find(|s| s.name == "add").unwrap();
    assert_eq!(add.parameters.len(), 2);
    assert_eq!(add.parameters[0].name, "a");
    assert_eq!(add.parameters[0].param_type, Some("Bit#(32)".to_string()));
    assert_eq!(add.parameters[1].name, "b");
    assert_eq!(add.parameters[1].param_type, Some("Bit#(32)".to_string()));
}

#[test]
fn test_extract_method_params() {
    // module mkTest(); / method Bit#(32) get(Bit#(32) addr, Bit#(8) select); / return addr; / endmethod / endmodule
    let addr = node(
        "methodFormal",
        (1, 24),
        (1, 37),
        "Bit#(32) addr",
        vec![leaf("type", 1, 24, "Bit#(32)"), leaf("identifier", 1, 33, "addr")],
    );
    let select = node(
        "methodFormal",
        (1, 39),
        (1, 54),
        "Bit#(8) select",
        vec![leaf("type", 1, 39, "Bit#(8)"), leaf("identifier", 1, 47, "select")],
    );
    let formals = node("methodFormals", (1, 23), (1, 55), "", vec![addr, select]);
    let method = node(
        "methodDef",
        (1, 4),
        (3, 13),
        "",
        vec![leaf("method", 1, 4, "method"), leaf("type", 1, 11, "Bit#(32)"), leaf("identifier", 1, 20, "get"), formals],
    );
    let module = node("moduleDef", (0, 0), (4, 9), "", vec![method]);
    let tree = node("sourceFile", (0, 0), (5, 0), "", vec![module]);
    let symbols = extract_symbols(&tree);
    let get = symbols.iter().find(|s| s.name == "get").unwrap();
    assert_eq!(get.kind, SymbolKind::Method);
    assert_eq!(get.parameters.len(), 2);
    assert_eq!(get.parameters[0].name, "addr");
    assert_eq!(get.parameters[0].param_type, Some("Bit#(32)".to_string()));
    assert_eq!(get.parameters[1].name, "select");
    assert_eq!(get.parameters[1].param_type, Some("Bit#(8)".to_string()));
}

#[test]
fn test_extract_function_no_params() {
    let tree = node("sourceFile", (0, 0), (3, 0), "", vec![function_def("getValue", vec![])]);
    let symbols = extract_symbols(&tree);
    let func = symbols.iter().find(|s| s.name == "getValue").unwrap();
    assert_eq!(func.parameters.len(), 0);
}

#[test]
fn walked_symbols_have_names_and_outline_kinds() {
    let empty_name = node("moduleDef", (0, 0), (1, 9), "", vec![node("moduleProto", (0, 0), (0, 9), "", vec![leaf("identifier", 0, 7, "")])]);
    let tree = node("sourceFile", (0, 0), (3, 0), "", vec![empty_name, function_def("f", vec![("Bool", "x")])]);
    let symbols = extract_symbols(&tree);
    assert_eq!(symbols.len(), 1);
    assert!(symbols.iter().all(|s| !s.name.is_empty()));
    assert_eq!(symbols[0].kind, SymbolKind::Function);
}

/// The prototype `module <name>();` at `row`, column 0.
fn module_proto(row: usize, name: &str) -> SyntaxNode {
    let text = format!("module {}();", name);
    node(
        "moduleProto",
        (row, 0),
        (row, text.len()),
        &text,
        vec![leaf("module", row, 0, "module"), leaf("identifier", row, 7, name)],
    )
}

#[test]
fn test_extract_module_and_function_symbols() {
    let test = node("moduleDef", (0, 0), (2, 9), "", vec![module_proto(0, "mkTest"), leaf("endmodule", 2, 0, "endmodule")]);
    let inst = node(
        "moduleStmt",
        (5, 4),
        (5, 24),
        "mkTest my_test_inst;",
        vec![node("moduleInst", (5, 4), (5, 24), "", vec![leaf("identifier", 5, 4, "mkTest"), leaf("identifier", 5, 11, "my_test_inst")])],
    );
    let main = node("moduleDef", (4, 0), (6, 9), "", vec![module_proto(4, "mkMain"), inst, leaf("endmodule", 6, 0, "endmodule")]);
    let mut add = function_def("add", vec![("Bit#(32)", "a"), ("Bit#(32)", "b")]);
    add.start_row = 8;
    add.end_row = 10;
    let tree = node("sourceFile", (0, 0), (11, 0), "", vec![test, main, add]);
    let symbols = extract_symbols(&tree);
    assert!(symbols.iter().any(|s| s.name == "mkTest" && s.kind == SymbolKind::Module));
    assert!(symbols.iter().any(|s| s.name == "mkMain" && s.kind == SymbolKind::Module));
    assert!(symbols.iter().any(|s| s.name == "add" && s.kind == SymbolKind::Function));
}

#[test]
fn test_extract_module_with_broken_endmodule() {
    let err = node("ERROR", (2, 0), (2, 10), "endmodulex", vec![leaf("identifier", 2, 0, "endmodulex")]);
    let mut module = node("moduleDef", (0, 0), (2, 10), "", vec![module_proto(0, "mkTest"), err]);
    module.has_error = true;
    let tree = node("sourceFile", (0, 0), (3, 0), "", vec![module]);
    let symbols = extract_symbols(&tree);
    assert!(symbols.iter().any(|s| s.name == "mkTest" && s.kind == SymbolKind::Module));
}

#[test]
fn test_extract_multiple_modules_with_errors() {
    let a = node("moduleDef", (1, 0), (1, 23), "", vec![module_proto(1, "mkA"), leaf("endmodule", 1, 14, "endmodule")]);
    let err = node("ERROR", (2, 14), (2, 24), "endmodulex", vec![leaf("identifier", 2, 14, "endmodulex")]);
    let mut b = node("moduleDef", (2, 0), (2, 24), "", vec![module_proto(2, "mkB"), err]);
    b.has_error = true;
    let c = node("moduleDef", (3, 0), (3, 23), "", vec![module_proto(3, "mkC"), leaf("endmodule", 3, 14, "endmodule")]);
    let tree = node("sourceFile", (0, 0), (4, 0), "", vec![a, b, c]);
    let symbols = extract_symbols(&tree);
    assert!(symbols.iter().any(|s| s.name == "mkA"));
    assert!(symbols.iter().any(|s| s.name == "mkB"));
    assert!(symbols.iter().any(|s| s.name == "mkC"));
}

#[test]
fn test_extract_function_with_broken_module() {
    let err = node(
        "ERROR",
        (1, 0),
        (1, 27),
        "module mkTest(); endmodulex",
        vec![module_proto(1, "mkTest"), leaf("identifier", 1, 17, "endmodulex")],
    );
    let mut add = function_def("add", vec![("Bit#(32)", "a"), ("Bit#(32)", "b")]);
    add.start_row = 2;
    add.end_row = 4;
    let tree = node("sourceFile", (0, 0), (5, 0), "", vec![err, add]);
    let symbols = extract_symbols(&tree);
    assert!(symbols.iter().any(|s| s.name == "mkTest" && s.kind == SymbolKind::Module));
    assert!(symbols.iter().any(|s| s.name == "add" && s.kind == SymbolKind::Function));
}

#[test]
fn parser_test_missing_endmodule_entirely() {
    let err = node("ERROR", (0, 0), (0, 16), "module mkTest();", vec![module_proto(0, "mkTest")]);
    let tree = node("sourceFile", (0, 0), (0, 16), "module mkTest();", vec![err]);
    let symbols = extract_symbols(&tree);
    assert!(symbols.iter().any(|s| s.name == "mkTest"));
}
