use bsv_language_server::constant_expansion::{ConstantParser, ExpansionResult};
use bsv_language_server::position::{Position, Range};
use bsv_language_server::requests::{
    can_extract_word, extract_word_at_position, find_word_start, goto_definition, hover_content,
    hover_targets, parse_failure_diagnostic, symbol_hover_text, update_document, update_symbols,
    workspace_symbols,
};
use bsv_language_server::syntax::SyntaxNode;
use bsv_language_server::symbols::{Symbol, SymbolKind, SymbolTable};

fn range(l0: u32, c0: u32, l1: u32, c1: u32) -> Range {
    Range::new(Position::new(l0, c0), Position::new(l1, c1))
}

#[test]
fn word_under_cursor() {
    assert_eq!(extract_word_at_position("let foo_1 = bar;", 5).as_deref(), Some("foo_1"));
    assert_eq!(extract_word_at_position("let foo_1 = bar;", 3), Some("let".to_string()));
    assert_eq!(extract_word_at_position("a = b", 1).as_deref(), Some("a"));
    assert_eq!(extract_word_at_position("a = b", 2), None);
    assert_eq!(extract_word_at_position("abc", 3), None);
    assert_eq!(find_word_start("let foo_1 = bar;", 8), 4);
    assert!(can_extract_word("let foo_1 = bar;", 5));
}

#[test]
fn definition_found_in_document_then_by_name() {
    let mut table = SymbolTable::new();
    table.add_symbol("a", Symbol::new("mkA".to_string(), SymbolKind::Module, range(0, 7, 0, 10)));
    table.add_symbol("b", Symbol::new("helper".to_string(), SymbolKind::Function, range(4, 9, 4, 15)));
    let here = goto_definition(&table, "a", Position::new(0, 8), None).expect("own symbol");
    assert_eq!(here.uri, "a");
    let text = "module mkA();\n  x = helper(1);\n";
    let there = goto_definition(&table, "a", Position::new(1, 7), Some(text)).expect("by name");
    assert_eq!(there.uri, "b");
    assert_eq!(there.range, range(4, 9, 4, 15));
    assert!(goto_definition(&table, "a", Position::new(1, 3), Some(text)).is_none());
}

#[test]
fn workspace_search_is_case_blind_and_sorted() {
    let mut table = SymbolTable::new();
    table.add_symbol("a", Symbol::new("mkZeta".to_string(), SymbolKind::Module, range(0, 0, 0, 1)));
    table.add_symbol("a", Symbol::new("mkAlpha".to_string(), SymbolKind::Module, range(1, 0, 1, 1)));
    table.add_symbol("a", Symbol::new("other".to_string(), SymbolKind::Variable, range(2, 0, 2, 1)));
    let found = workspace_symbols(table.get_all_symbols(), "MK");
    let names: Vec<&str> = found.iter().map(|s| s.name.as_str()).collect();
    assert_eq!(names, vec!["mkAlpha", "mkZeta"]);
    let untagged = vec![Symbol::new("mkLost".to_string(), SymbolKind::Module, range(0, 0, 0, 1))];
    assert!(workspace_symbols(untagged, "mk").is_empty());
}

#[test]
fn symbol_hover_names_kind() {
    assert_eq!(symbol_hover_text("mkA", SymbolKind::Module), "**mkA**\n\n*Kind: Module*");
    assert_eq!(symbol_hover_text("f", SymbolKind::Function), "**f**\n\n*Kind: Function/Method*");
}

#[test]
fn hover_prefers_constants_then_symbols() {
    let text = "#define 2 FOO;\nx = FOO;\n";
    let defs = ConstantParser::new().parse(text);
    let targets = hover_targets(text, Position::new(1, 5), &defs);
    assert!(targets.definition.is_none());
    let usage = targets.usage.as_ref().expect("FOO is a constant");
    assert_eq!(usage.word, "FOO");
    assert_eq!(usage.range, range(1, 4, 1, 7));
    let expansion = ExpansionResult {
        name: "FOO".to_string(),
        final_value: 2,
        steps: vec![],
        success: false,
        error: None,
    };
    let (shown, at) = hover_content(&targets, None, Some(expansion), None).expect("hover");
    assert_eq!(shown, "**FOO** = `2`\n\n\u{26a0}\u{fe0f} Could not fully expand");
    assert_eq!(at, range(1, 4, 1, 7));
    let sym = Symbol::new("x".to_string(), SymbolKind::Variable, range(1, 0, 1, 1));
    let (fallback, _) = hover_content(&targets, None, None, Some(sym)).expect("symbol hover");
    assert_eq!(fallback, "**x**\n\n*Kind: Variable*");
    assert!(hover_content(&targets, None, None, None).is_none());
}

#[test]
fn refreshing_a_document_replaces_its_symbols() {
    let mut table = SymbolTable::new();
    table.add_symbol("a", Symbol::new("old".to_string(), SymbolKind::Variable, range(0, 0, 0, 1)));
    table.add_symbol("b", Symbol::new("keep".to_string(), SymbolKind::Variable, range(0, 0, 0, 1)));
    update_symbols(&mut table, "a", vec![Symbol::new("new".to_string(), SymbolKind::Rule, range(1, 0, 1, 3))]);
    let a = table.get_symbols("a");
    assert_eq!(a.len(), 1);
    assert_eq!(a[0].name, "new");
    assert_eq!(a[0].uri.as_deref(), Some("a"));
    assert_eq!(table.get_symbols("b").len(), 1);
}

#[test]
fn parse_failure_message() {
    let d = parse_failure_diagnostic("boom");
    assert_eq!(d.message, "Failed to parse file: boom");
    assert_eq!(d.range, range(0, 0, 0, 0));
}

fn tree_node(kind: &str, start: (usize, usize), end: (usize, usize), text: &str, children: Vec<SyntaxNode>) -> SyntaxNode {
    SyntaxNode {
        kind: kind.to_string(),
        start_row: start.0,
        start_col: start.1,
        end_row: end.0,
        end_col: end.1,
        text: text.to_string(),
        has_error: false,
        children,
    }
}

#[test]
fn update_document_records_symbols_and_reports_errors() {
    let source = "module mkA();\nendm\n";
    let proto = tree_node(
        "moduleProto",
        (0, 0),
        (0, 13),
        "module mkA();",
        vec![tree_node("identifier", (0, 7), (0, 10), "mkA", vec![])],
    );
    let err = tree_node("ERROR", (1, 0), (1, 4), "endm", vec![tree_node("identifier", (1, 0), (1, 4), "endm", vec![])]);
    let module = tree_node("moduleDef", (0, 0), (1, 4), "", vec![proto, err]);
    let tree = tree_node("sourceFile", (0, 0), (2, 0), source, vec![module]);
    let mut table = SymbolTable::new();
    table.add_symbol("doc", Symbol::new("old".to_string(), SymbolKind::Rule, range(5, 0, 5, 3)));
    let diags = update_document(&mut table, "doc", source, Ok(tree));
    assert_eq!(diags.len(), 1);
    assert_eq!(diags[0].message, "Unexpected token: 'endm'");
    let syms = table.get_symbols("doc");
    assert_eq!(syms.len(), 1);
    assert_eq!(syms[0].name, "mkA");
    assert_eq!(syms[0].uri.as_deref(), Some("doc"));
}

#[test]
fn update_document_reports_a_failed_parse_and_keeps_the_table() {
    let mut table = SymbolTable::new();
    table.add_symbol("doc", Symbol::new("old".to_string(), SymbolKind::Rule, range(5, 0, 5, 3)));
    let diags = update_document(&mut table, "doc", "x", Err("no tree".to_string()));
    assert_eq!(diags.len(), 1);
    assert_eq!(diags[0].message, "Failed to parse file: no tree");
    assert_eq!(diags[0].range, range(0, 0, 0, 0));
    assert_eq!(table.get_symbols("doc").len(), 1);
}
