use bsv_language_server::constant_expansion::parse_i64;
use bsv_language_server::constant_expansion::{
    ConstantParser, ExpansionResult, ExpansionStep, TypeFunction,
};
use bsv_language_server::pattern::GroupMatch;
use bsv_language_server::position::Position;

#[test]
fn test_parse_simple_define() {
    let source = "#define 2 FOO;";
    let parser = ConstantParser::new();
    let defs = parser.parse(source);

    assert_eq!(defs.len(), 1);
    assert_eq!(defs[0].name, "FOO");
    assert_eq!(defs[0].value, "2");
    assert!(defs[0].is_simple);
}

#[test]
fn test_parse_type_function_define() {
    let source = "#define TAdd#(FOO, 1) BAR;";
    let parser = ConstantParser::new();
    let defs = parser.parse(source);

    assert_eq!(defs.len(), 1);
    assert_eq!(defs[0].name, "BAR");
    assert_eq!(defs[0].value, "TAdd#(FOO, 1)");
    assert!(!defs[0].is_simple);
}

#[test]
fn test_parse_multiple_defines() {
    let source = "\n#define 2 FOO;\n#define TAdd#(FOO, 1) BAR;\n#define 10 BAZ;\n";
    let parser = ConstantParser::new();
    let defs = parser.parse(source);

    assert_eq!(defs.len(), 3);
    assert_eq!(defs[0].name, "FOO");
    assert_eq!(defs[1].name, "BAR");
    assert_eq!(defs[2].name, "BAZ");
}

#[test]
fn test_parse_with_comments() {
    let source = "\n// This is a comment\n#define 4 WIDTH; // inline comment\n/* multi-line\n   comment */\n#define TAdd#(WIDTH, 4) EXTENDED;\n";
    let parser = ConstantParser::new();
    let defs = parser.parse(source);

    assert_eq!(defs.len(), 2);
    assert_eq!(defs[0].name, "WIDTH");
    assert_eq!(defs[1].name, "EXTENDED");
}

#[test]
fn test_find_constant_at_position() {
    let source = "#define 2 FOO;";
    let parser = ConstantParser::new();

    let defs = parser.parse(source);
    assert_eq!(defs.len(), 1);

    let name_start = defs[0].range.start.character + "#define 2 ".len() as u32;

    let pos = Position {
        line: 0,
        character: name_start,
    };
    let result = parser.find_constant_at_position(source, pos);

    assert!(
        result.is_some(),
        "Should find constant at position {}",
        name_start
    );
    assert_eq!(result.unwrap().name, "FOO");
}

#[test]
fn test_hex_constant_parsing() {
    let source = "#define 0xFF VALUE;";
    let parser = ConstantParser::new();
    let defs = parser.parse(source);

    assert_eq!(defs.len(), 1);
    assert_eq!(defs[0].name, "VALUE");
    assert_eq!(defs[0].value, "0xFF");
    assert!(defs[0].is_simple);
}

#[test]
fn test_parse_i64_hex() {
    assert_eq!(parse_i64("0xFF").unwrap(), 255);
    assert_eq!(parse_i64("0xff").unwrap(), 255);
    assert_eq!(parse_i64("0x10").unwrap(), 16);
    assert_eq!(parse_i64("0x0").unwrap(), 0);
}

#[test]
fn test_parse_i64_decimal() {
    assert_eq!(parse_i64("42").unwrap(), 42);
    assert_eq!(parse_i64("0").unwrap(), 0);
    assert_eq!(parse_i64("-1").unwrap(), -1);
}

#[test]
fn test_parse_i64_binary() {
    assert_eq!(parse_i64("0b1010").unwrap(), 10);
    assert_eq!(parse_i64("0b0").unwrap(), 0);
}

#[test]
fn test_parse_i64_invalid() {
    assert!(parse_i64("").is_err());
    assert!(parse_i64("abc").is_err());
    assert!(parse_i64("0x").is_err());
}

#[test]
fn test_type_function_evaluate() {
    assert_eq!(TypeFunction::TAdd.evaluate(&[2, 3]), Some(5));
    assert_eq!(TypeFunction::TSub.evaluate(&[10, 3]), Some(7));
    assert_eq!(TypeFunction::TMul.evaluate(&[4, 5]), Some(20));
    assert_eq!(TypeFunction::TDiv.evaluate(&[20, 4]), Some(5));
    assert_eq!(TypeFunction::TLog.evaluate(&[256]), Some(8));
    assert_eq!(TypeFunction::TExp.evaluate(&[3]), Some(8));
    assert_eq!(TypeFunction::TMax.evaluate(&[5, 10]), Some(10));
    assert_eq!(TypeFunction::TMin.evaluate(&[5, 10]), Some(5));
}

fn sample_result() -> ExpansionResult {
    ExpansionResult {
        name: "BAR".to_string(),
        final_value: 3,
        steps: vec![
            ExpansionStep {
                expression: "TAdd#(FOO, 1)".to_string(),
                description: None,
                value: None,
                is_constant_ref: false,
                original_definition: None,
            },
            ExpansionStep {
                expression: "FOO".to_string(),
                description: Some("substituted".to_string()),
                value: Some(2),
                is_constant_ref: true,
                original_definition: Some("2".to_string()),
            },
            ExpansionStep {
                expression: "TAdd#(2, 1)".to_string(),
                description: Some("evaluated".to_string()),
                value: Some(3),
                is_constant_ref: false,
                original_definition: None,
            },
        ],
        success: true,
        error: None,
    }
}

#[test]
fn test_expansion_result_format() {
    let result = sample_result();
    let trace = result.format_trace();
    assert!(trace.contains("BAR"));
    assert!(trace.contains("3"));
}

#[test]
fn expansion_trace_full_text() {
    let trace = sample_result().format_trace();
    println!("{}", trace);
    assert!(trace.starts_with("BAR = 3"));
    assert!(trace.contains("TAdd#(FOO, 1)"));
}

#[test]
fn failed_expansion_trace_names_the_error() {
    let result = ExpansionResult {
        name: "X".to_string(),
        final_value: 0,
        steps: vec![],
        success: false,
        error: Some("Undefined constant: Y".to_string()),
    };
    let trace = result.format_trace();
    assert!(trace.contains("Undefined constant: Y"));
}

#[test]
fn type_function_names_round_trip() {
    for name in ["TAdd", "TSub", "TMul", "TDiv", "TLog", "TExp", "TMax", "TMin"] {
        let f = TypeFunction::from_name(name).unwrap();
        assert_eq!(f.name(), name);
    }
    assert!(TypeFunction::from_name("TFoo").is_none());
}

#[test]
fn type_function_rejects_bad_arguments() {
    assert_eq!(TypeFunction::TDiv.evaluate(&[1, 0]), None);
    assert_eq!(TypeFunction::TAdd.evaluate(&[1]), None);
    assert_eq!(TypeFunction::TLog.evaluate(&[0]), None);
    assert_eq!(TypeFunction::TExp.evaluate(&[-1]), None);
    assert_eq!(TypeFunction::TExp.evaluate(&[63]), None);
    assert_eq!(TypeFunction::TExp.evaluate(&[4294967296]), None);
    assert_eq!(TypeFunction::TExp.evaluate(&[4294967299]), None);
    assert_eq!(TypeFunction::TExp.evaluate(&[62]), Some(1i64 << 62));
    assert_eq!(TypeFunction::TExp.evaluate(&[0]), Some(1));
    assert_eq!(TypeFunction::TMax.evaluate(&[1]), None);
    assert_eq!(TypeFunction::TMin.evaluate(&[1, 2, 3]), None);
    assert_eq!(TypeFunction::TSub.evaluate(&[]), None);
    assert_eq!(TypeFunction::TMul.evaluate(&[3, 4]), Some(12));
    assert_eq!(TypeFunction::TLog.evaluate(&[1]), Some(0));
    assert_eq!(TypeFunction::TLog.evaluate(&[5]), Some(3));
    assert_eq!(TypeFunction::TDiv.evaluate(&[-7, 2]), Some(-3));
}

#[test]
fn parse_i64_trims_and_signs() {
    assert_eq!(parse_i64("  12 ").unwrap(), 12);
    assert_eq!(parse_i64("0B11").unwrap(), 3);
    assert_eq!(parse_i64("0X1f").unwrap(), 31);
    assert!(parse_i64("0b2").is_err());
}

#[test]
fn find_constant_by_name_finds_the_first() {
    let source = "#define 2 FOO;\n#define 3 FOO;";
    let parser = ConstantParser::new();
    let d = parser.find_constant_by_name(source, "FOO").unwrap();
    assert_eq!(d.value, "2");
    assert_eq!(d.range.start.line, 0);
    assert!(parser.find_constant_by_name(source, "BAR").is_none());
}

#[test]
fn constant_ranges_follow_lines() {
    let source = "x\n  #define 7 SEVEN;";
    let parser = ConstantParser::new();
    let defs = parser.parse(source);
    assert_eq!(defs.len(), 1);
    assert_eq!(defs[0].range.start.line, 1);
    assert_eq!(defs[0].range.start.character, 2);
}

#[test]
fn simple_numeric_trace_shows_value_only() {
    let result = ExpansionResult {
        name: "FOO".to_string(),
        final_value: 2,
        steps: vec![ExpansionStep {
            expression: " 2 ".to_string(),
            description: None,
            value: Some(2),
            is_constant_ref: false,
            original_definition: None,
        }],
        success: true,
        error: None,
    };
    assert_eq!(result.format_trace(), "FOO = 2");
}

#[test]
fn parse_i64_reads_back_display() {
    for v in [i64::MIN, i64::MAX, -5, 0, 1234567] {
        assert_eq!(parse_i64(&v.to_string()).unwrap(), v);
    }
}

#[test]
fn parse_i64_reads_back_hex_binary_and_padded_text() {
    for v in [0i64, 1, 10, 255, 4096, i64::MAX] {
        assert_eq!(parse_i64(&format!("0x{:x}", v)).unwrap(), v);
        assert_eq!(parse_i64(&format!("0X{:X}", v)).unwrap(), v);
        assert_eq!(parse_i64(&format!("0b{:b}", v)).unwrap(), v);
        assert_eq!(parse_i64(&format!("0B{:b}", v)).unwrap(), v);
    }
    for v in [i64::MIN, -7, 0, 99] {
        assert_eq!(parse_i64(&format!(" {}\n", v)).unwrap(), v);
        assert_eq!(parse_i64(&format!("\t{} ", v)).unwrap(), v);
    }
    assert!(parse_i64("abc").is_err());
    assert!(parse_i64("0xg").is_err());
    assert!(parse_i64("+").is_err());
}

#[test]
fn trace_starts_with_name_and_value() {
    let trace = sample_result().format_trace();
    assert_eq!(trace.split('\n').next(), Some("BAR = 3"));
    let no_steps = ExpansionResult {
        name: "X".to_string(),
        final_value: -4,
        steps: vec![],
        success: true,
        error: None,
    };
    assert_eq!(no_steps.format_trace(), "X = -4");
}

fn group(start: usize, end: usize, text: &str) -> Option<GroupMatch> {
    Some(GroupMatch { start, end, text: text.to_string() })
}

#[test]
fn definitions_come_from_the_captures() {
    let source = "#define 2 FOO;\n#define X;";
    let caps = vec![
        vec![group(0, 14, "#define 2 FOO;"), group(8, 9, "2"), group(10, 13, "FOO")],
        vec![group(15, 25, "#define X;"), group(23, 24, "X"), None],
    ];
    let defs = ConstantParser::defs_from_captures(source, &caps);
    assert_eq!(defs.len(), 1);
    assert_eq!(defs[0].name, "FOO");
    assert_eq!(defs[0].value, "2");
    assert!(defs[0].is_simple);
    assert_eq!(defs[0].range.start, Position { line: 0, character: 0 });
    assert_eq!(defs[0].range.end, Position { line: 0, character: 14 });
    let own = vec![vec![group(0, 14, "#define 2 FOO;"), group(8, 9, "2"), group(10, 13, "FOO")]];
    assert!(ConstantParser::cursor_on_name(&defs[0], &own, Position { line: 0, character: 11 }));
    assert!(ConstantParser::cursor_on_name(&defs[0], &own, Position { line: 0, character: 13 }));
    assert!(!ConstantParser::cursor_on_name(&defs[0], &own, Position { line: 0, character: 5 }));
    assert!(!ConstantParser::cursor_on_name(&defs[0], &own, Position { line: 1, character: 11 }));
}

#[test]
fn parsed_definitions_come_in_order_and_are_well_formed() {
    let source = "#define 2 FOO; #define TAdd#(FOO, 1) BAR;\n#define 0x10 BAZ;\n";
    let defs = ConstantParser::new().parse(source);
    assert_eq!(defs.len(), 3);
    for d in &defs {
        assert!(!d.name.is_empty() && !d.value.is_empty());
        assert_eq!(d.is_simple, parse_i64(&d.value).is_ok());
        let (s, e) = (d.range.start, d.range.end);
        assert!(s.line < e.line || (s.line == e.line && s.character <= e.character));
    }
    for w in defs.windows(2) {
        let (e, s) = (w[0].range.end, w[1].range.start);
        assert!(e.line < s.line || (e.line == s.line && e.character <= s.character));
    }
    assert!(defs[2].is_simple);
    assert!(!defs[1].is_simple);
}
