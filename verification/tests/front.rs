use memspec_parser::ast::{BlockDecl, BlockItem, BlockName, FieldValue};
use memspec_parser::diagnostic::codes;
use memspec_parser::lexer::tokenize;
use memspec_parser::parser::{parse, ParseResult};
use memspec_parser::span::{LineCol, SourceMap, Span};
use memspec_parser::token::TokenKind;

// ---------------------------------------------------------------------------
// Spans
// ---------------------------------------------------------------------------

#[test]
fn span_join_and_slice() {
    let s = Span::new(0, 5);
    let t = Span::new(3, 10);
    assert_eq!(s.join(t), Span::new(0, 10));
    let src = "hello world";
    assert_eq!(s.slice(src), "hello");
}

#[test]
fn source_map_line_col() {
    let src = "abc\ndefg\nhi";
    let map = SourceMap::new(src);
    assert_eq!(map.line_col(0), LineCol { line: 1, col: 1 });
    assert_eq!(map.line_col(2), LineCol { line: 1, col: 3 });
    assert_eq!(map.line_col(4), LineCol { line: 2, col: 1 });
    assert_eq!(map.line_col(9), LineCol { line: 3, col: 1 });
}

#[test]
fn span_join_is_symmetric_and_covers_both() {
    let a = Span::new(4, 9);
    let b = Span::new(2, 6);
    assert_eq!(a.join(b), b.join(a));
    assert_eq!(a.join(b), Span::new(2, 9));
    assert_eq!(a.join(a), a);
}

#[test]
fn source_map_line_col_past_last_newline() {
    let map = SourceMap::new("a\n\nb");
    assert_eq!(map.line_col(2), LineCol { line: 2, col: 1 });
    assert_eq!(map.line_col(3), LineCol { line: 3, col: 1 });
}

// ---------------------------------------------------------------------------
// Lexer
// ---------------------------------------------------------------------------

#[test]
fn tokenizes_punctuation() {
    let stream = tokenize("{ } [ ] : , | < >");
    let kinds: Vec<_> = stream
        .tokens
        .iter()
        .map(|t| t.kind.clone())
        .filter(|k| !matches!(k, TokenKind::Eof))
        .collect();
    assert_eq!(
        kinds,
        vec![
            TokenKind::LBrace,
            TokenKind::RBrace,
            TokenKind::LBracket,
            TokenKind::RBracket,
            TokenKind::Colon,
            TokenKind::Comma,
            TokenKind::Pipe,
            TokenKind::LAngle,
            TokenKind::RAngle,
        ]
    );
    assert!(stream.diagnostics.is_empty());
}

#[test]
fn tokenizes_identifiers_and_keywords() {
    let stream = tokenize("slice rule_state cell published");
    let names: Vec<_> = stream
        .tokens
        .iter()
        .filter_map(|t| match &t.kind {
            TokenKind::Identifier(n) => Some(n.clone()),
            _ => None,
        })
        .collect();
    assert_eq!(names, vec!["slice", "rule_state", "cell", "published"]);
}

#[test]
fn tokenizes_string_literals() {
    let stream = tokenize(r#""hello \"world\"" "plain""#);
    let strings: Vec<_> = stream
        .tokens
        .iter()
        .filter_map(|t| match &t.kind {
            TokenKind::StringLit { value, is_triple } => Some((value.clone(), *is_triple)),
            _ => None,
        })
        .collect();
    assert_eq!(strings, vec![("hello \"world\"".to_owned(), false), ("plain".to_owned(), false),]);
    assert!(stream.diagnostics.is_empty());
}

#[test]
fn tokenizes_triple_quoted_string() {
    let src = r#""""multi
line
string""""#;
    let stream = tokenize(src);
    let s = stream
        .tokens
        .iter()
        .find_map(|t| match &t.kind {
            TokenKind::StringLit { value, is_triple: true } => Some(value.clone()),
            _ => None,
        })
        .expect("expected triple-quoted string");
    assert_eq!(s, "multi\nline\nstring");
    assert!(stream.diagnostics.is_empty());
}

#[test]
fn skips_comments() {
    let src = "// line comment\n/* block\n  comment */ slice";
    let stream = tokenize(src);
    let names: Vec<_> = stream
        .tokens
        .iter()
        .filter_map(|t| match &t.kind {
            TokenKind::Identifier(n) => Some(n.clone()),
            _ => None,
        })
        .collect();
    assert_eq!(names, vec!["slice"]);
    assert!(stream.diagnostics.is_empty());
}

#[test]
fn unterminated_string_emits_diagnostic_but_continues() {
    let stream = tokenize("\"unclosed\nslice next");
    assert!(
        stream.diagnostics.iter().any(|d| d.code == codes::E_LEX_UNTERMINATED_STRING),
        "expected unterminated-string diagnostic"
    );
    assert!(stream.tokens.iter().any(|t| matches!(&t.kind, TokenKind::Identifier(s) if s == "next")));
}

#[test]
fn arrow_token() {
    let stream = tokenize("a -> b");
    let kinds: Vec<_> = stream
        .tokens
        .iter()
        .map(|t| t.kind.clone())
        .filter(|k| !matches!(k, TokenKind::Eof))
        .collect();
    assert_eq!(
        kinds,
        vec![TokenKind::Identifier("a".to_owned()), TokenKind::Arrow, TokenKind::Identifier("b".to_owned()),]
    );
}

#[test]
fn token_stream_ends_with_exactly_one_eof() {
    let stream = tokenize("slice s { cell c { type: boolean } }");
    let eofs = stream.tokens.iter().filter(|t| matches!(t.kind, TokenKind::Eof)).count();
    assert_eq!(eofs, 1);
    assert!(matches!(stream.tokens.last().map(|t| &t.kind), Some(TokenKind::Eof)));
}

#[test]
fn unexpected_character_is_reported() {
    let stream = tokenize("slice # s");
    assert!(stream.diagnostics.iter().any(|d| d.code == codes::E_LEX_UNEXPECTED_CHAR));
}

// ---------------------------------------------------------------------------
// Parser
// ---------------------------------------------------------------------------

fn parse_str(src: &str) -> ParseResult {
    parse(src)
}

fn assert_no_diagnostics(r: &ParseResult) {
    assert!(r.diagnostics.is_empty(), "unexpected diagnostics: {:#?}", r.diagnostics);
}

fn find_field(items: &[BlockItem], key: &str) -> Option<FieldValue> {
    for it in items {
        match it {
            BlockItem::Field(f) if f.key.name == key => return Some(f.value.clone()),
            BlockItem::Block(b) => {
                if let Some(v) = find_field(&b.items, key) {
                    return Some(v);
                }
            }
            _ => {}
        }
    }
    None
}

fn first_field_named(r: &ParseResult, key: &str) -> FieldValue {
    find_field(&r.file.slice.as_ref().unwrap().items, key).unwrap_or_else(|| panic!("field `{}` not found", key))
}

fn field_of(block: &BlockDecl, key: &str) -> FieldValue {
    block
        .items
        .iter()
        .find_map(|i| match i {
            BlockItem::Field(f) if f.key.name == key => Some(f.value.clone()),
            _ => None,
        })
        .expect("field present")
}

#[test]
fn parses_minimal_slice() {
    let r = parse_str("slice empty { }");
    assert_no_diagnostics(&r);
    let s = r.file.slice.expect("slice present");
    assert_eq!(s.name.name, "empty");
    assert!(s.items.is_empty());
}

#[test]
fn parses_single_field() {
    let r = parse_str(r#"slice s { meta { title: "hello" } }"#);
    assert_no_diagnostics(&r);
    let slice = r.file.slice.unwrap();
    assert_eq!(slice.items.len(), 1);
    let BlockItem::Block(meta) = &slice.items[0] else { panic!("expected block") };
    assert_eq!(meta.kind.name, "meta");
    assert!(meta.name.is_none());
    let BlockItem::Field(f) = &meta.items[0] else { panic!("expected field") };
    assert_eq!(f.key.name, "title");
    let FieldValue::String { value, is_triple, .. } = &f.value else { panic!("string expected") };
    assert_eq!(value, "hello");
    assert!(!is_triple);
}

#[test]
fn parses_named_block() {
    let r = parse_str("slice s { cell foo { type: boolean } }");
    assert_no_diagnostics(&r);
    let cell = match &r.file.slice.unwrap().items[0] {
        BlockItem::Block(b) => b.clone(),
        _ => panic!(),
    };
    assert_eq!(cell.kind.name, "cell");
    let BlockName::Ident(n) = cell.name.unwrap() else { panic!() };
    assert_eq!(n.name, "foo");
}

#[test]
fn parses_walk_block_with_int_name() {
    let r = parse_str("slice s { walk 1 { summary: \"first\" } }");
    assert_no_diagnostics(&r);
    let walk = match &r.file.slice.unwrap().items[0] {
        BlockItem::Block(b) => b.clone(),
        _ => panic!(),
    };
    assert_eq!(walk.kind.name, "walk");
    let BlockName::Int { value, .. } = walk.name.unwrap() else { panic!() };
    assert_eq!(value, 1);
}

#[test]
fn parses_type_app_with_alternation() {
    let r = parse_str("slice s { cell c { type: enum<draft | published | archived> } }");
    assert_no_diagnostics(&r);
    let f = first_field_named(&r, "type");
    let FieldValue::TypeApp { head, params, alternation, .. } = f else { panic!() };
    assert_eq!(head.name, "enum");
    assert!(alternation);
    assert_eq!(params.len(), 3);
}

#[test]
fn parses_type_app_positional() {
    let r = parse_str("slice s { cell c { type: map<draft, archived> } }");
    assert_no_diagnostics(&r);
    let f = first_field_named(&r, "type");
    let FieldValue::TypeApp { alternation, params, .. } = f else { panic!() };
    assert!(!alternation);
    assert_eq!(params.len(), 2);
}

#[test]
fn parses_list_of_idents() {
    let r = parse_str("slice s { event e { mutates: [a, b, c] } }");
    assert_no_diagnostics(&r);
    let f = first_field_named(&r, "mutates");
    let FieldValue::List { items, .. } = f else { panic!() };
    assert_eq!(items.len(), 3);
}

#[test]
fn parses_map_value() {
    let r = parse_str(r#"slice s { cell c { impl_hints: { rust: "Vec<u8>", ruby: "Array" } } }"#);
    assert_no_diagnostics(&r);
    let f = first_field_named(&r, "impl_hints");
    let FieldValue::Mapping { entries, .. } = f else { panic!() };
    assert_eq!(entries.len(), 2);
}

#[test]
fn parses_bool_literals() {
    let r = parse_str("slice s { cell c { mutable: true default_active: false } }");
    assert_no_diagnostics(&r);
    let mutable = first_field_named(&r, "mutable");
    assert!(matches!(mutable, FieldValue::Bool { value: true, .. }));
    let default_active = first_field_named(&r, "default_active");
    assert!(matches!(default_active, FieldValue::Bool { value: false, .. }));
}

#[test]
fn parses_call_form() {
    let r = parse_str("slice s { association a { enforced_by: event_handler(promote) } }");
    assert_no_diagnostics(&r);
    let f = first_field_named(&r, "enforced_by");
    let FieldValue::Call { head, args, .. } = f else { panic!() };
    assert_eq!(head.name, "event_handler");
    assert_eq!(args.len(), 1);
}

#[test]
fn parses_anonymous_block() {
    let r = parse_str(
        r#"slice s {
                post_failure pf {
                    cells_after_pre_rollback {
                        a: published
                        b: true
                    }
                }
            }"#,
    );
    assert_no_diagnostics(&r);
    let pf = match &r.file.slice.unwrap().items[0] {
        BlockItem::Block(b) => b.clone(),
        _ => panic!(),
    };
    let inner = match &pf.items[0] {
        BlockItem::Block(b) => b.clone(),
        _ => panic!(),
    };
    assert_eq!(inner.kind.name, "cells_after_pre_rollback");
    assert!(inner.name.is_none());
    assert_eq!(inner.items.len(), 2);
}

#[test]
fn empty_file_emits_diagnostic() {
    let r = parse_str("");
    assert!(r.diagnostics.iter().any(|d| d.code == codes::E_PARSE_EMPTY_FILE));
}

#[test]
fn missing_top_level_slice_emits_diagnostic() {
    let r = parse_str("cell foo { }");
    assert!(r.diagnostics.iter().any(|d| d.code == codes::E_PARSE_EXPECTED_SLICE));
}

#[test]
fn extra_top_level_decl_emits_diagnostic() {
    let r = parse_str("slice a { } slice b { }");
    assert!(r.diagnostics.iter().any(|d| d.code == codes::E_PARSE_MULTIPLE_SLICES));
}

#[test]
fn parses_use_declaration() {
    let r = parse_str(r#"slice s { use "./other.memspec" as o }"#);
    assert_no_diagnostics(&r);
    let slice = r.file.slice.unwrap();
    assert_eq!(slice.imports.len(), 1);
    assert_eq!(slice.imports[0].path, "./other.memspec");
    assert_eq!(slice.imports[0].alias.name, "o");
    assert!(slice.items.is_empty());
}

#[test]
fn parses_multiple_use_declarations() {
    let r = parse_str(
        r#"slice s {
                use "./a.memspec" as a
                use "./b.memspec" as b
            }"#,
    );
    assert_no_diagnostics(&r);
    let slice = r.file.slice.unwrap();
    assert_eq!(slice.imports.len(), 2);
    assert_eq!(slice.imports[0].alias.name, "a");
    assert_eq!(slice.imports[1].alias.name, "b");
}

#[test]
fn parses_qualified_ref_in_field_value() {
    let r = parse_str(
        r#"slice s {
                use "./other.memspec" as o
                derived d {
                    derives_from: [o.cell_a, local_b]
                    derivation: "..."
                }
                cell local_b { type: boolean mutable: true }
            }"#,
    );
    assert_no_diagnostics(&r);
    let slice = r.file.slice.unwrap();
    let derived = match &slice.items[0] {
        BlockItem::Block(b) => b.clone(),
        _ => panic!(),
    };
    let FieldValue::List { items, .. } = field_of(&derived, "derives_from") else { panic!() };
    let FieldValue::QualifiedIdent { alias, name, .. } = &items[0] else { panic!() };
    assert_eq!(alias.name, "o");
    assert_eq!(name.name, "cell_a");
    let FieldValue::Ident(i) = &items[1] else { panic!() };
    assert_eq!(i.name, "local_b");
}

#[test]
fn duplicate_import_alias_emits_diagnostic() {
    let r = parse_str(
        r#"slice s {
                use "./a.memspec" as x
                use "./b.memspec" as x
            }"#,
    );
    assert!(r.diagnostics.iter().any(|d| d.code == codes::E_PARSE_DUPLICATE_IMPORT_ALIAS));
}

#[test]
fn use_after_decl_emits_diagnostic() {
    let r = parse_str(
        r#"slice s {
                cell c { type: boolean mutable: true }
                use "./other.memspec" as o
            }"#,
    );
    assert!(r.diagnostics.iter().any(|d| d.code == codes::E_PARSE_USE_AFTER_DECL));
}

#[test]
fn use_without_as_emits_diagnostic() {
    let r = parse_str(r#"slice s { use "./a.memspec" foo }"#);
    assert!(r.diagnostics.iter().any(|d| d.code == codes::E_PARSE_EXPECTED_AS));
}

#[test]
fn parser_spans_lie_inside_the_source() {
    let src = "slice s { cell c { type: boolean mutable: true } }";
    let r = parse_str(src);
    let slice = r.file.slice.unwrap();
    assert!(slice.span.end <= src.len());
    assert_eq!(slice.name.span.slice(src), "s");
    let BlockItem::Block(c) = &slice.items[0] else { panic!() };
    assert_eq!(c.kind.span.slice(src), "cell");
}
