use memspec_parser::analysis::loader::{load_with_imports, InMemoryLoader};
use memspec_parser::analysis::revisions::synthesize_revision_source;
use memspec_parser::diagnostic::codes;
use memspec_parser::parser::parse;
use memspec_parser::walk_report::report::{
    locate_diagnostics, shown_for_file, walk_single_file, walk_status, walk_working_set, WalkReport,
};
use memspec_parser::walk_report::revision_text::{
    appended_summary_text, corrupt_last_result_hash, genesis_summary_text, has_error, revision_check_diagnostics,
    revision_diagnostics_text, working_set_has_errors,
};
use memspec_parser::analysis::revisions::build_genesis_revision;
use memspec_parser::{Diagnostic, Severity, Span};

const CLEAN: &str = "slice s {\n  cell c { type: boolean mutable: true }\n}\n";

#[test]
fn walk_status_names() {
    assert_eq!(walk_status(1, 5), "walk-incomplete");
    assert_eq!(walk_status(0, 5), "walk-complete (with warnings)");
    assert_eq!(walk_status(0, 0), "walk-complete");
}

#[test]
fn located_diagnostics_carry_line_and_column() {
    let ds = vec![Diagnostic::warning("memspec/W0270", Span::new(17, 18), "unused".to_owned())];
    let ls = locate_diagnostics(&ds, CLEAN);
    assert_eq!((ls[0].line, ls[0].col), (2, 8));
    assert_eq!((ls[0].byte_start, ls[0].byte_end), (17, 18));
    assert_eq!(ls[0].message, "unused");
}

#[test]
fn single_file_report_text() {
    let w = walk_single_file("s.memspec", CLEAN);
    assert_eq!(w.report.file, "s.memspec");
    assert_eq!(w.report.slice.cells, 1);
    assert_eq!(w.exit_code, 0);
    let text = w.report.text();
    assert!(text.starts_with("memspec walk: s.memspec\n  slice:                s\n  cells:                1\n"), "{text}");
    assert!(text.contains("  events:               0 (steps: 0)\n"), "{text}");
    assert!(text.contains("  status:               walk-complete (with warnings)\n"), "{text}");
    assert!(text.contains("\n\n  [memspec/W0270] s.memspec:2:8  warning: "), "{text}");
}

#[test]
fn single_file_report_on_markdown_is_one_friendly_error() {
    let md = "# Title\n\n".to_owned() + &"@@ ".repeat(20);
    let w = walk_single_file("notes.md", &md);
    assert_eq!(w.report.diagnostics.len(), 1);
    assert_eq!(w.report.diagnostics[0].code, "memspec/E0006");
    assert_eq!(w.exit_code, 2);
    assert_eq!(w.report.summary.errors, 1);
}

#[test]
fn report_without_slice_says_none() {
    let pr = parse("");
    let r = WalkReport::build("e.memspec".to_owned(), &pr.file, &Vec::new(), "");
    let text = r.text();
    assert!(text.starts_with("memspec walk: e.memspec\n  slice:                <none>\n"), "{text}");
    assert!(text.ends_with("  status:               walk-complete\n"), "{text}");
}

#[test]
fn working_set_report_and_exit_code() {
    let loader = InMemoryLoader::new()
        .with_file("/w/main.memspec", "slice main {\n  use \"./dep.memspec\" as d\n  cell c { type: boolean mutable: true }\n}\n")
        .with_file("/w/dep.memspec", "slice dep { cell x { type: boolean mutable: true } }");
    let ws = load_with_imports(&loader, "/w/main.memspec");
    let w = walk_working_set(&ws);
    assert_eq!(w.report.root, "/w/main.memspec");
    assert_eq!(w.report.files.len(), 2);
    let text = w.report.text();
    assert!(text.starts_with("memspec walk: 2 file(s) loaded (root: /w/main.memspec)\n\n── /w/main.memspec ──\n  slice:                main\n"), "{text}");
    let total: usize = w.report.files.iter().map(|f| f.diagnostics.len()).sum();
    assert_eq!(w.report.summary.errors + w.report.summary.warnings + w.report.summary.info, total);
    assert_eq!(w.exit_code, if w.report.summary.errors > 0 { 3 } else { 0 });
}

#[test]
fn shown_for_file_keeps_real_memspec_diagnostics() {
    let ds = vec![Diagnostic::error("memspec/E0003", Span::new(0, 1), "x".to_owned())];
    let r = shown_for_file(ds, "slice s {}", "s.memspec");
    assert_eq!(r.len(), 1);
    assert_eq!(r[0].code, "memspec/E0003");
}

#[test]
fn revision_diagnostic_lines() {
    let ds = vec![
        Diagnostic::error(codes::E_REV_TERMINAL_MISMATCH, Span::new(17, 18), "bad".to_owned()).with_hint("h".to_owned()),
    ];
    let t = revision_diagnostics_text(&ds, CLEAN);
    assert_eq!(t, format!("  [{}] 2:8 error: bad\n        hint: h\n", codes::E_REV_TERMINAL_MISMATCH));
    assert!(has_error(&ds));
    assert!(!has_error(&Vec::new()));
}

#[test]
fn working_set_errors_come_from_loading() {
    let loader = InMemoryLoader::new().with_file("/w/a.memspec", "slice a { use \"./missing.memspec\" as m }");
    let ws = load_with_imports(&loader, "/w/a.memspec");
    assert!(working_set_has_errors(&ws));
    let ok = InMemoryLoader::new().with_file("/w/b.memspec", CLEAN);
    assert!(!working_set_has_errors(&load_with_imports(&ok, "/w/b.memspec")));
}

#[test]
fn corrupted_hash_fails_the_revision_check() {
    let first = synthesize_revision_source(CLEAN, None, "init".to_owned(), None).expect("synthesized");
    assert!(!has_error(&revision_check_diagnostics(&first.new_source)));
    let broken = corrupt_last_result_hash(&first.new_source);
    assert_ne!(broken, first.new_source);
    assert_eq!(broken.len(), first.new_source.len());
    let ds = revision_check_diagnostics(&broken);
    assert!(ds.iter().any(|d| d.code == codes::E_REV_TERMINAL_MISMATCH), "{ds:#?}");
    assert_eq!(corrupt_last_result_hash("no hash here"), "no hash here");
    assert_eq!(corrupt_last_result_hash("result_hash: \"sha256:0abc"), "result_hash: \"sha256:1abc");
    assert_eq!(corrupt_last_result_hash("result_hash: \"sha256:fabc"), "result_hash: \"sha256:0abc");
    let text = appended_summary_text("f.memspec", &first.report);
    assert!(text.starts_with("appended revision "), "{text}");
    assert!(text.ends_with(" to f.memspec\n"), "{text}");
}

#[test]
fn genesis_summary_lines() {
    let pr = parse(CLEAN);
    let report = build_genesis_revision(&pr.file, CLEAN, Some("s.memspec".to_owned()), "initial import".to_owned(), None);
    let t = genesis_summary_text("s.memspec", &report);
    assert!(t.starts_with("memspec experimental genesis: s.memspec\n  slice:                s\n  revision_number:      1\n"), "{t}");
    assert!(t.contains(&format!("  result_hash:          {}\n", report.revision.result_hash)), "{t}");
    assert!(t.ends_with(&format!("  ops:                  {}\n", report.revision.ops.len())), "{t}");
    let _ = Severity::Info;
}
