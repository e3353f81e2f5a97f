use bsv_language_server::diagnostics::{
    can_collect, check_misspelled_keyword, is_bsv_keyword, DiagnosticCollector,
    DiagnosticSeverity,
};
use bsv_language_server::syntax::SyntaxNode;

fn node(kind: &str, start: (usize, usize), end: (usize, usize), text: &str, children: Vec<SyntaxNode>) -> SyntaxNode {
    SyntaxNode {
        kind: kind.to_string(),
        start_row: start.0,
        start_col: start.1,
        end_row: end.0,
        end_col: end.1,
        text: text.to_string(),
        has_error: kind == "ERROR",
        children,
    }
}

fn leaf(kind: &str, row: usize, col: usize, text: &str) -> SyntaxNode {
    node(kind, (row, col), (row, col + text.len()), text, vec![])
}

#[test]
fn no_error_nodes_no_diagnostics() {
    let tree = node("sourceFile", (0, 0), (2, 0), "", vec![leaf("moduleDef", 0, 0, "module mkA(); endmodule")]);
    let diags = DiagnosticCollector::collect(&tree, "module mkA(); endmodule\n");
    assert!(diags.is_empty());
}

#[test]
fn misspelled_endmodule_is_reported_at_the_keyword() {
    let source = "module mkTest();\n  endm\n";
    let err = node("ERROR", (0, 0), (1, 6), "module mkTest();\n  endm", vec![leaf("module", 0, 0, "module")]);
    let tree = node("sourceFile", (0, 0), (2, 0), source, vec![err]);
    assert!(can_collect(&tree, source));
    let diags = DiagnosticCollector::collect(&tree, source);
    assert_eq!(diags.len(), 1);
    let d = &diags[0];
    assert_eq!(d.severity, Some(DiagnosticSeverity::Error));
    assert_eq!(d.source.as_deref(), Some("bsv"));
    assert_eq!((d.range.start.line, d.range.start.character), (1, 2));
    assert_eq!((d.range.end.line, d.range.end.character), (1, 6));
    assert_eq!(d.message, "Syntax error near: 'module mkTest();\n  endm'");
}

#[test]
fn unexpected_keyword_message() {
    let source = "endm\n";
    let err = node("ERROR", (0, 0), (0, 4), "endm", vec![leaf("identifier", 0, 0, "endm")]);
    let tree = node("sourceFile", (0, 0), (1, 0), source, vec![err]);
    let diags = DiagnosticCollector::collect(&tree, source);
    assert_eq!(diags.len(), 1);
    assert_eq!(diags[0].message, "Unexpected token: 'endm'");
}

#[test]
fn define_and_let_lines_are_not_reported() {
    let source = "#define 32 ADDR_WIDTH;\n  let {a, b} = x;\nfoo bar\n";
    let e1 = node("ERROR", (0, 0), (0, 7), "#define", vec![]);
    let e2 = node("ERROR", (1, 2), (1, 5), "let", vec![]);
    let e3 = node("ERROR", (2, 0), (2, 7), "foo bar", vec![]);
    let tree = node("sourceFile", (0, 0), (3, 0), source, vec![e1, e2, e3]);
    let diags = DiagnosticCollector::collect(&tree, source);
    assert_eq!(diags.len(), 1);
    assert_eq!(diags[0].range.start.line, 2);
    assert_eq!(diags[0].message, "Syntax error near: 'foo bar'");
}

#[test]
fn nested_errors_reported_once() {
    let source = "a b c\n";
    let inner = node("ERROR", (0, 2), (0, 3), "b", vec![]);
    let outer = node("ERROR", (0, 0), (0, 5), "a b c", vec![inner]);
    let tree = node("sourceFile", (0, 0), (1, 0), source, vec![outer]);
    let diags = DiagnosticCollector::collect(&tree, source);
    assert_eq!(diags.len(), 1);
}

#[test]
fn long_error_text_is_cut() {
    let text = "x".repeat(70);
    let source = format!("{}\n", text);
    let err = node("ERROR", (0, 0), (0, 70), &text, vec![]);
    let tree = node("sourceFile", (0, 0), (1, 0), &source, vec![err]);
    let diags = DiagnosticCollector::collect(&tree, &source);
    assert_eq!(diags[0].message, format!("Syntax error near: '{}...'", "x".repeat(57)));
}

#[test]
fn empty_error_reports_line_number() {
    let source = "a\nb\n";
    let err = node("ERROR", (1, 1), (1, 1), "", vec![]);
    let tree = node("sourceFile", (0, 0), (2, 0), source, vec![err]);
    let diags = DiagnosticCollector::collect(&tree, source);
    assert_eq!(diags[0].message, "Syntax error at line 2");
    assert_eq!((diags[0].range.start.line, diags[0].range.start.character), (1, 1));
}

#[test]
fn long_text_is_cut_by_characters() {
    let text = format!("{}é{}", "a".repeat(56), "b".repeat(10));
    let source = format!("{}\n", text);
    let err = node("ERROR", (0, 0), (0, 68), &text, vec![]);
    let tree = node("sourceFile", (0, 0), (1, 0), &source, vec![err]);
    assert!(can_collect(&tree, &source));
    let diags = DiagnosticCollector::collect(&tree, &source);
    assert_eq!(diags.len(), 1);
    assert_eq!(diags[0].message, format!("Syntax error near: '{}é...'", "a".repeat(56)));
}

#[test]
fn short_text_with_wide_characters_is_not_cut() {
    let text = format!("a{}", "é".repeat(30));
    let source = format!("{}\n", text);
    let err = node("ERROR", (0, 0), (0, 61), &text, vec![]);
    let tree = node("sourceFile", (0, 0), (1, 0), &source, vec![err]);
    let diags = DiagnosticCollector::collect(&tree, &source);
    assert_eq!(diags.len(), 1);
    assert_eq!(diags[0].message, format!("Syntax error near: '{}'", text));
}

#[test]
fn correct_endmodule_is_not_narrowed_and_whole_token_is() {
    let source = "module mkTest();\n  endmodul x\nendmodule\n";
    let err = node("ERROR", (1, 0), (2, 9), "endmodul x\nendmodule", vec![leaf("identifier", 1, 2, "x")]);
    let tree = node("sourceFile", (0, 0), (3, 0), source, vec![leaf("moduleProto", 0, 0, "module mkTest();"), err]);
    let diags = DiagnosticCollector::collect(&tree, source);
    assert_eq!(diags.len(), 1);
    assert_eq!(diags[0].range.start.line, 1);
    assert_eq!(diags[0].range.start.character, 2);
    assert_eq!(diags[0].range.end.character, 10);

    let source2 = "module mkTest();\nendmodule\n";
    let err2 = node("ERROR", (1, 0), (1, 9), "endmodule", vec![]);
    let tree2 = node("sourceFile", (0, 0), (2, 0), source2, vec![err2]);
    let diags2 = DiagnosticCollector::collect(&tree2, source2);
    assert_eq!(diags2.len(), 1);
    assert_eq!(diags2[0].range.start.character, 0);
    assert_eq!(diags2[0].range.end.character, 9);
}

#[test]
fn keyword_classification() {
    assert!(check_misspelled_keyword("endmodu"));
    assert!(!check_misspelled_keyword("endmodule"));
    assert!(is_bsv_keyword("endmodule"));
    assert!(is_bsv_keyword("endtask"));
    assert!(!is_bsv_keyword("module"));
}

/// `module mkTest();` / `endm` with `endm` left in an `ERROR` node.
fn misspelled_module() -> (&'static str, SyntaxNode) {
    let source = "module mkTest();\nendm\n";
    let err = node("ERROR", (1, 0), (1, 4), "endm", vec![leaf("identifier", 1, 0, "endm")]);
    let tree = node("sourceFile", (0, 0), (2, 0), source, vec![leaf("moduleProto", 0, 0, "module mkTest();"), err]);
    (source, tree)
}

#[test]
fn test_no_errors_on_valid_code() {
    let source = "\nmodule mkTest();\n    Reg#(Bit#(32)) counter <- mkReg(0);\nendmodule\n";
    let module = node("moduleDef", (1, 0), (3, 9), "", vec![leaf("moduleProto", 1, 0, "module mkTest();")]);
    let tree = node("sourceFile", (0, 0), (4, 0), source, vec![module]);
    let diags = DiagnosticCollector::collect(&tree, source);
    assert!(diags.is_empty(), "Valid code should have no diagnostics, got: {:?}", diags);
}

#[test]
fn test_define_directives_are_not_false_positives() {
    let source = "\n#define 32 ADDR_WIDTH;\n#define 8 DATA_WIDTH;\n#define TAdd#(ADDR_WIDTH, 1) INCREMENTED;\n\nmodule mkTest();\n    Reg#(Bit#(32)) counter <- mkReg(0);\nendmodule\n";
    let errors = vec![
        node("ERROR", (1, 0), (1, 22), "#define 32 ADDR_WIDTH;", vec![]),
        node("ERROR", (2, 0), (2, 21), "#define 8 DATA_WIDTH;", vec![]),
        node("ERROR", (3, 8), (3, 41), "TAdd#(ADDR_WIDTH, 1) INCREMENTED;", vec![]),
    ];
    let mut children = errors;
    children.push(node("moduleDef", (5, 0), (7, 9), "", vec![]));
    let tree = node("sourceFile", (0, 0), (8, 0), source, children);
    let diags = DiagnosticCollector::collect(&tree, source);
    assert!(diags.is_empty(), "#define directives should not produce diagnostics, got: {:?}", diags);
}

#[test]
fn test_empty_document_no_diagnostics() {
    let tree = node("sourceFile", (0, 0), (0, 0), "", vec![]);
    let diags = DiagnosticCollector::collect(&tree, "");
    assert!(diags.is_empty());
}

#[test]
fn test_range_covers_error_span() {
    let (source, tree) = misspelled_module();
    let diags = DiagnosticCollector::collect(&tree, source);
    assert!(!diags.is_empty());
    let d = &diags[0];
    assert!(d.range.start.line <= 1, "Error should start at or before line 1");
    assert!(d.range.end.line >= 1, "Error should end at or after line 1");
}

#[test]
fn test_error_severity_is_error() {
    let (source, tree) = misspelled_module();
    let diags = DiagnosticCollector::collect(&tree, source);
    assert!(!diags.is_empty());
    assert_eq!(diags[0].severity, Some(DiagnosticSeverity::Error));
}

#[test]
fn test_error_source_is_bsv() {
    let (source, tree) = misspelled_module();
    let diags = DiagnosticCollector::collect(&tree, source);
    assert!(!diags.is_empty());
    assert_eq!(diags[0].source, Some("bsv".to_string()));
}

#[test]
fn test_valid_package_no_diagnostics() {
    let source = "\npackage TestPackage;\n    export mkTest;\n    module mkTest();\n        Reg#(Bit#(32)) counter <- mkReg(0);\n    endmodule\nendpackage\n";
    let module = node("moduleDef", (3, 4), (5, 13), "", vec![leaf("moduleProto", 3, 4, "module mkTest();")]);
    let package = node("packageDecl", (1, 0), (6, 10), "", vec![module]);
    let tree = node("sourceFile", (0, 0), (7, 0), source, vec![package]);
    let diags = DiagnosticCollector::collect(&tree, source);
    assert!(diags.is_empty(), "Valid package should have no diagnostics");
}

#[test]
fn test_error_on_misspelled_endmodule_detected() {
    let source = "module mkTest();\n    // test logic\nendm\n";
    let err = node("ERROR", (2, 0), (2, 4), "endm", vec![leaf("identifier", 2, 0, "endm")]);
    let tree = node("sourceFile", (0, 0), (3, 0), source, vec![leaf("moduleProto", 0, 0, "module mkTest();"), err]);
    let diags = DiagnosticCollector::collect(&tree, source);
    assert!(!diags.is_empty(), "Misspelled 'endm' should produce a diagnostic");
}

#[test]
fn test_multiple_errors_reported() {
    let source = "\nmodule mkA();\nendm\n\nmodule mkB();\n    bad syntax here\nendm\n";
    let err_a = node("ERROR", (1, 0), (2, 4), "module mkA();\nendm", vec![leaf("module", 1, 0, "module")]);
    let err_b = node("ERROR", (4, 0), (6, 4), "module mkB();\n    bad syntax here\nendm", vec![leaf("module", 4, 0, "module")]);
    let tree = node("sourceFile", (0, 0), (7, 0), source, vec![err_a, err_b]);
    let diags = DiagnosticCollector::collect(&tree, source);
    assert!(diags.len() >= 1, "Should report at least one error for broken code");
}

#[test]
fn test_error_at_beginning_of_file() {
    let source = "some random text\nmodule mkTest();\nendmodule\n";
    let err = node("ERROR", (0, 0), (0, 16), "some random text", vec![leaf("identifier", 0, 0, "some")]);
    let module = node("moduleDef", (1, 0), (2, 9), "", vec![leaf("moduleProto", 1, 0, "module mkTest();")]);
    let tree = node("sourceFile", (0, 0), (3, 0), source, vec![err, module]);
    let diags = DiagnosticCollector::collect(&tree, source);
    assert!(!diags.is_empty());
}

#[test]
fn diagnostics_test_missing_endmodule_entirely() {
    let source = "module mkTest();\n    Reg#(Bit#(32)) counter <- mkReg(0);\n";
    let module = node("moduleDef", (0, 0), (1, 39), "", vec![leaf("moduleProto", 0, 0, "module mkTest();")]);
    let tree = node("sourceFile", (0, 0), (2, 0), source, vec![module]);
    let diags = DiagnosticCollector::collect(&tree, source);
    assert!(diags.is_empty());
}

#[test]
fn test_error_inside_module_body() {
    let source = "\nmodule mkTest();\n    Reg#(Bit#(32)) counter <- mkReg(0);\nendm  // misspelled endmodule\n";
    let err = node("ERROR", (3, 0), (3, 4), "endm", vec![leaf("identifier", 3, 0, "endm")]);
    let tree = node("sourceFile", (0, 0), (4, 0), source, vec![leaf("moduleProto", 1, 0, "module mkTest();"), err]);
    let diags = DiagnosticCollector::collect(&tree, source);
    assert!(!diags.is_empty(), "Misspelled 'endm' inside module should produce a diagnostic");
    assert_eq!(diags[0].range.start.character, 0);
    assert_eq!(diags[0].range.end.character, 4);
}

#[test]
fn test_multiple_independent_errors() {
    let source = "\nmodule mkA();\nendm\n\nfunction Bit#(32) add(Bit#(32) a, Bit#(32) b);\n    return a + b;\nendfunction\n";
    let err = node("ERROR", (1, 0), (2, 4), "module mkA();\nendm", vec![leaf("module", 1, 0, "module")]);
    let function = node("functionDef", (4, 0), (6, 11), "", vec![]);
    let tree = node("sourceFile", (0, 0), (7, 0), source, vec![err, function]);
    let diags = DiagnosticCollector::collect(&tree, source);
    assert!(diags.len() >= 1, "Should report error for broken module with 'endm'");
}
