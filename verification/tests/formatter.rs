use bsv_language_server::formatter::{format_document, sanitize_preprocessor_lines};
use bsv_language_server::syntax::SyntaxNode;

fn node(kind: &str, start: usize, end: usize, children: Vec<SyntaxNode>) -> SyntaxNode {
    SyntaxNode {
        kind: kind.to_string(),
        start_row: start,
        start_col: 0,
        end_row: end,
        end_col: 0,
        text: String::new(),
        has_error: false,
        children,
    }
}

fn flat(lines: usize) -> SyntaxNode {
    node("sourceFile", 0, lines, vec![])
}

#[test]
fn test_empty_source() {
    assert_eq!(format_document("", &flat(0)), "\n");
}

#[test]
fn test_single_line() {
    let input = "  module mkFoo(); endmodule  ";
    assert_eq!(format_document(input, &flat(0)), "module mkFoo(); endmodule\n");
}

#[test]
fn test_module_body_indented() {
    let input = "module mkFoo();\nrule r;\n$display(\"hello\");\nendrule\nendmodule";
    let rule = node("rule", 1, 3, vec![]);
    let module = node("moduleDef", 0, 4, vec![rule]);
    let tree = node("sourceFile", 0, 4, vec![module]);
    let expected = "module mkFoo();\n   rule r;\n      $display(\"hello\");\n   endrule\nendmodule\n";
    assert_eq!(format_document(input, &tree), expected);
}

#[test]
fn test_spacing_for_keyword() {
    let input = "module mkTest();\nrule r;\nfor(i=0;i<10;i=i+1) y();\nendrule\nendmodule";
    let rule = node("rule", 1, 3, vec![]);
    let module = node("moduleDef", 0, 4, vec![rule]);
    let tree = node("sourceFile", 0, 4, vec![module]);
    let expected = "module mkTest();\n   rule r;\n      for (i = 0; i < 10; i = i + 1) y();\n   endrule\nendmodule\n";
    assert_eq!(format_document(input, &tree), expected);
}

#[test]
fn formatting_struct_literal_and_arrow() {
    let input = "module mkTest();\nlet s = Foo{a:1, b:2};\nlet x<-mkReg(0);\nendmodule";
    let module = node("moduleDef", 0, 3, vec![]);
    let tree = node("sourceFile", 0, 3, vec![module]);
    let expected = "module mkTest();\n   let s = Foo {a: 1, b: 2};\n   let x <- mkReg(0);\nendmodule\n";
    assert_eq!(format_document(input, &tree), expected);
}

#[test]
fn formatting_collapses_blank_runs_and_keeps_comments() {
    let input = "module mkFoo();\n\n\n/*\n *  kept   as is  \n */\nendmodule";
    let module = node("moduleDef", 0, 6, vec![]);
    let tree = node("sourceFile", 0, 6, vec![module]);
    let expected = "module mkFoo();\n\n/*\n *  kept   as is\n */\nendmodule\n";
    assert_eq!(format_document(input, &tree), expected);
}

#[test]
fn test_preprocessor_lines_preserved() {
    let input = "`ifdef BSIM\nmodule mkSim();\n`else\nmodule mkReal();\n`endif\nrule r;\n$display(\"hi\");\nendrule\nendmodule";
    // The parser sees the second module nested in the first.
    let rule = node("rule", 5, 7, vec![]);
    let real = node("moduleDef", 3, 8, vec![rule]);
    let sim = node("moduleDef", 1, 8, vec![real]);
    let tree = node("sourceFile", 0, 8, vec![sim]);
    let expected = "`ifdef BSIM\nmodule mkSim();\n`else\nmodule mkReal();\n`endif\n   rule r;\n      $display(\"hi\");\n   endrule\nendmodule\n";
    assert_eq!(format_document(input, &tree), expected);
}

#[test]
fn sanitizing_comments_out_preprocessor_lines() {
    let input = "`ifdef X\n  `define Y\nmodule m;\n";
    assert_eq!(sanitize_preprocessor_lines(input), "// preprocessor\n  // preprocessor\nmodule m;");
}

/// `module mkX();` with one rule on rows 1 to 3, closed on row 4.
fn module_rule_tree() -> SyntaxNode {
    let rule = node("rule", 1, 3, vec![]);
    let module = node("moduleDef", 0, 4, vec![rule]);
    node("sourceFile", 0, 4, vec![module])
}

#[test]
fn test_nested_rules() {
    let input = "module mkTop();\nrule ra;\nlet x = 1;\nendrule\nrule rb;\nlet y = 2;\nendrule\nendmodule";
    let module = node("moduleDef", 0, 7, vec![node("rule", 1, 3, vec![]), node("rule", 4, 6, vec![])]);
    let tree = node("sourceFile", 0, 7, vec![module]);
    let expected = "module mkTop();\n   rule ra;\n      let x = 1;\n   endrule\n   rule rb;\n      let y = 2;\n   endrule\nendmodule\n";
    assert_eq!(format_document(input, &tree), expected);
}

#[test]
fn test_nested_if_in_action() {
    let input = "module mkTest();\nrule r;\naction\nif (x) y();\nelse z();\nendaction\nendrule\nendmodule";
    let action = node("actionBlock", 2, 5, vec![]);
    let module = node("moduleDef", 0, 7, vec![node("rule", 1, 6, vec![action])]);
    let tree = node("sourceFile", 0, 7, vec![module]);
    let expected = "module mkTest();\n   rule r;\n      action\n         if (x) y();\n         else z();\n      endaction\n   endrule\nendmodule\n";
    assert_eq!(format_document(input, &tree), expected);
}

#[test]
fn test_function_indentation() {
    let input = "function Bit#(32) add(Bit#(32) a, Bit#(32) b);\nreturn a + b;\nendfunction";
    let tree = node("sourceFile", 0, 2, vec![node("functionDef", 0, 2, vec![])]);
    let expected = "function Bit#(32) add(Bit#(32) a, Bit#(32) b);\n   return a + b;\nendfunction\n";
    assert_eq!(format_document(input, &tree), expected);
}

#[test]
fn test_interface_indentation() {
    let input = "interface I;\nmethod Bit#(8) get();\nendmethod\nendinterface";
    let tree = node("sourceFile", 0, 3, vec![node("interfaceDecl", 0, 3, vec![node("methodDef", 1, 2, vec![])])]);
    let expected = "interface I;\n   method Bit#(8) get();\n   endmethod\nendinterface\n";
    assert_eq!(format_document(input, &tree), expected);
}

#[test]
fn test_typedef_struct_indentation() {
    let input = "typedef struct {\nBit#(8) field;\nBit#(16) other;\n} S deriving(Bits);";
    let tree = node("sourceFile", 0, 3, vec![node("typedefStruct", 0, 3, vec![])]);
    let expected = "typedef struct {\n   Bit#(8) field;\n   Bit#(16) other;\n} S deriving(Bits);\n";
    assert_eq!(format_document(input, &tree), expected);
}

#[test]
fn test_typedef_enum_indentation() {
    let input = "typedef enum {\nIdle,\nBusy,\nDone\n} State deriving(Bits);";
    let tree = node("sourceFile", 0, 4, vec![node("typedefEnum", 0, 4, vec![])]);
    let expected = "typedef enum {\n   Idle,\n   Busy,\n   Done\n} State deriving(Bits);\n";
    assert_eq!(format_document(input, &tree), expected);
}

#[test]
fn test_begin_end_in_action() {
    let input = "module mkTest();\nrule r;\naction\nbegin\n$display(\"a\");\n$display(\"b\");\nend\nendaction\nendrule\nendmodule";
    let begin = node("beginEndExpr", 3, 6, vec![]);
    let action = node("actionBlock", 2, 7, vec![begin]);
    let module = node("moduleDef", 0, 9, vec![node("rule", 1, 8, vec![action])]);
    let tree = node("sourceFile", 0, 9, vec![module]);
    let expected = "module mkTest();\n   rule r;\n      action\n         begin\n            $display(\"a\");\n            $display(\"b\");\n         end\n      endaction\n   endrule\nendmodule\n";
    assert_eq!(format_document(input, &tree), expected);
}

#[test]
fn test_already_formatted_is_idempotent() {
    let input = "module mkFoo();\n   rule r;\n      $display(\"ok\");\n   endrule\nendmodule\n";
    let tree = module_rule_tree();
    assert_eq!(format_document(input, &tree), input);
}

#[test]
fn test_double_formatting_is_stable() {
    let input = "module mkFoo();\n   rule r;\n      $display(\"ok\");\n   endrule\nendmodule\n";
    let tree = module_rule_tree();
    let once = format_document(input, &tree);
    let twice = format_document(&once, &tree);
    assert_eq!(once, twice);
}

#[test]
fn test_spacing_larrow() {
    let input = "module mkTest();\nlet x<-mkReg(0);\nendmodule";
    let tree = node("sourceFile", 0, 2, vec![node("moduleDef", 0, 2, vec![])]);
    assert_eq!(format_document(input, &tree), "module mkTest();\n   let x <- mkReg(0);\nendmodule\n");
}

#[test]
fn test_spacing_reg_write() {
    let input = "module mkTest();\nrule r;\nx<=y;\nendrule\nendmodule";
    let expected = "module mkTest();\n   rule r;\n      x <= y;\n   endrule\nendmodule\n";
    assert_eq!(format_document(input, &module_rule_tree()), expected);
}

#[test]
fn test_spacing_if_keyword() {
    let input = "module mkTest();\nrule r;\nif(x) y();\nendrule\nendmodule";
    let expected = "module mkTest();\n   rule r;\n      if (x) y();\n   endrule\nendmodule\n";
    assert_eq!(format_document(input, &module_rule_tree()), expected);
}

#[test]
fn test_spacing_struct_literal() {
    let input = "module mkTest();\nlet s = Foo{a:1, b:2};\nendmodule";
    let tree = node("sourceFile", 0, 2, vec![node("moduleDef", 0, 2, vec![])]);
    assert_eq!(format_document(input, &tree), "module mkTest();\n   let s = Foo {a: 1, b: 2};\nendmodule\n");
}

#[test]
fn test_spacing_return() {
    let input = "function Bit#(32) add(Bit#(32) a, Bit#(32) b);\nreturn a+b;\nendfunction";
    let tree = node("sourceFile", 0, 2, vec![node("functionDef", 0, 2, vec![])]);
    let expected = "function Bit#(32) add(Bit#(32) a, Bit#(32) b);\n   return a + b;\nendfunction\n";
    assert_eq!(format_document(input, &tree), expected);
}

#[test]
fn test_line_comments_preserved() {
    let input = "// top comment\nmodule mkFoo();\n// inside comment\nrule r;\n$display(\"hi\"); // inline\nendrule\nendmodule";
    let module = node("moduleDef", 1, 6, vec![node("rule", 3, 5, vec![])]);
    let tree = node("sourceFile", 0, 6, vec![module]);
    let expected = "// top comment\nmodule mkFoo();\n   // inside comment\n   rule r;\n      $display(\"hi\"); // inline\n   endrule\nendmodule\n";
    assert_eq!(format_document(input, &tree), expected);
}

#[test]
fn test_block_comments_preserved() {
    let input = "module mkFoo();\n/*\n * multi-line\n * comment\n */\nrule r;\n$display(\"hi\");\nendrule\nendmodule";
    let module = node("moduleDef", 0, 8, vec![node("rule", 5, 7, vec![])]);
    let tree = node("sourceFile", 0, 8, vec![module]);
    let expected = "module mkFoo();\n/*\n * multi-line\n * comment\n */\n   rule r;\n      $display(\"hi\");\n   endrule\nendmodule\n";
    assert_eq!(format_document(input, &tree), expected);
}

#[test]
fn test_trailing_whitespace_removed() {
    let input = "module mkFoo();   \n   rule r;  \n      $display(\"hi\");   \n   endrule   \nendmodule   \n";
    let expected = "module mkFoo();\n   rule r;\n      $display(\"hi\");\n   endrule\nendmodule\n";
    assert_eq!(format_document(input, &module_rule_tree()), expected);
}

#[test]
fn test_consecutive_blank_lines_collapsed() {
    let input = "module mkFoo();\n\n\n   rule r;\n\n\n\n      $display(\"hi\");\n   endrule\nendmodule";
    let module = node("moduleDef", 0, 9, vec![node("rule", 3, 8, vec![])]);
    let tree = node("sourceFile", 0, 9, vec![module]);
    let expected = "module mkFoo();\n\n   rule r;\n\n      $display(\"hi\");\n   endrule\nendmodule\n";
    assert_eq!(format_document(input, &tree), expected);
}

#[test]
fn test_mixed_indentation_normalized() {
    let input = "module mkFoo();\n    rule r;\n        $display(\"mixed\");\n    endrule\n  endmodule";
    let expected = "module mkFoo();\n   rule r;\n      $display(\"mixed\");\n   endrule\nendmodule\n";
    assert_eq!(format_document(input, &module_rule_tree()), expected);
}

#[test]
fn formatting_leaves_trailing_blank_lines_out() {
    let tree = node("sourceFile", 0, 3, vec![]);
    assert_eq!(format_document("x = 1;\n\n\n", &tree), "x = 1;\n");
    assert_eq!(format_document("\n\n", &tree), "\n");
}

#[test]
fn formatting_spaces_a_nested_operator_line_behind_its_indent() {
    let input = "module mkTest();\nrule r;\n=foo\nendrule\nendmodule";
    let expected = "module mkTest();\n   rule r;\n      =foo\n   endrule\nendmodule\n";
    assert_eq!(format_document(input, &module_rule_tree()), expected);
}

#[test]
fn formatting_leaves_double_colon_alone() {
    let input = "import Vector::*;\nlet a:b = c;";
    let tree = node("sourceFile", 0, 1, vec![]);
    assert_eq!(format_document(input, &tree), "import Vector::*;\nlet a: b = c;\n");
}
