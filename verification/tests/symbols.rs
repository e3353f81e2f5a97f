use bsv_language_server::position::{Position, Range};
use bsv_language_server::symbols::{ParameterInfo, Reference, Symbol, SymbolKind, SymbolTable};

fn range(l0: u32, c0: u32, l1: u32, c1: u32) -> Range {
    Range::new(Position::new(l0, c0), Position::new(l1, c1))
}

#[test]
fn added_symbols_come_back_tagged_with_their_document() {
    let mut table = SymbolTable::new();
    table.add_symbol("file:///a.bsv", Symbol::new("mkA".to_string(), SymbolKind::Module, range(0, 7, 0, 10)));
    table.add_symbol("file:///a.bsv", Symbol::new("f".to_string(), SymbolKind::Function, range(2, 0, 2, 1)));
    let got = table.get_symbols("file:///a.bsv");
    assert_eq!(got.len(), 2);
    assert_eq!(got[0].name, "mkA");
    assert_eq!(got[1].name, "f");
    assert_eq!(got[0].uri.as_deref(), Some("file:///a.bsv"));
    assert!(table.get_symbols("file:///b.bsv").is_empty());
}

#[test]
fn symbol_lookup_by_position_and_name() {
    let mut table = SymbolTable::new();
    table.add_symbol("a", Symbol::new("mkA".to_string(), SymbolKind::Module, range(0, 7, 0, 10)));
    table.add_symbol("b", Symbol::new("mkA".to_string(), SymbolKind::Module, range(3, 0, 3, 3)));
    let hit = table.find_symbol_at_position("a", Position::new(0, 10)).expect("inside");
    assert_eq!(hit.name, "mkA");
    assert!(table.find_symbol_at_position("a", Position::new(0, 11)).is_none());
    assert_eq!(table.find_symbol_by_name("mkA").len(), 2);
    assert_eq!(table.get_all_symbols().len(), 2);
}

#[test]
fn clearing_a_file_forgets_only_that_file() {
    let mut table = SymbolTable::new();
    table.add_symbol("a", Symbol::new("x".to_string(), SymbolKind::Variable, range(0, 0, 0, 1)));
    table.add_symbol("b", Symbol::new("y".to_string(), SymbolKind::Variable, range(0, 0, 0, 1)));
    table.add_reference("a", Reference { name: "x".to_string(), range: range(1, 0, 1, 1), uri: None });
    table.clear_file("a");
    assert!(table.get_symbols("a").is_empty());
    assert!(table.get_references("a").is_empty());
    assert_eq!(table.get_symbols("b").len(), 1);
}

#[test]
fn references_by_name_across_files() {
    let mut table = SymbolTable::new();
    table.add_reference("a", Reference { name: "x".to_string(), range: range(1, 0, 1, 1), uri: None });
    table.add_reference("b", Reference { name: "x".to_string(), range: range(2, 0, 2, 1), uri: None });
    table.add_reference("b", Reference { name: "z".to_string(), range: range(3, 0, 3, 1), uri: None });
    assert_eq!(table.find_references_by_name("x").len(), 2);
    assert_eq!(table.get_references("b").len(), 2);
    assert_eq!(table.get_references("b")[0].uri.as_deref(), Some("b"));
    table.clear_references("b");
    assert!(table.get_references("b").is_empty());
    assert_eq!(table.get_references("a").len(), 1);
}

#[test]
fn symbol_contains_its_range_ends() {
    let s = Symbol::new("s".to_string(), SymbolKind::Rule, range(1, 2, 3, 4));
    assert!(s.contains_position(&Position::new(1, 2)));
    assert!(s.contains_position(&Position::new(2, 0)));
    assert!(s.contains_position(&Position::new(3, 4)));
    assert!(!s.contains_position(&Position::new(3, 5)));
    assert!(!s.contains_position(&Position::new(1, 1)));
}

#[test]
fn parameter_info_keeps_fields() {
    let p = ParameterInfo::new("a".to_string(), Some("Bit#(8)".to_string()));
    assert_eq!(p.name, "a");
    assert_eq!(p.param_type.as_deref(), Some("Bit#(8)"));
}

#[test]
fn default_table_is_empty() {
    let table = SymbolTable::default();
    assert!(table.get_all_symbols().is_empty());
    assert!(table.find_references_by_name("x").is_empty());
}
