use memspec_parser::analysis::revisions::replay::apply_revision_op;
use memspec_parser::analysis::revisions::BlockPathSegment;
use memspec_parser::analysis::loader::{load_with_imports, InMemoryLoader};
use memspec_parser::analysis::render::{render_markdown, render_markdown_aggregate, render_mermaid, render_mermaid_aggregate};
use memspec_parser::analysis::revisions::{
    build_genesis_revision, canonical_source_projection, collect_inline_revisions, line_count, run, source_sha256,
    synthesize_revision_source, SemanticPatchOp, REVISION_MANIFEST_VERSION,
};
use memspec_parser::analysis::analyze;
use memspec_parser::ast::File;
use memspec_parser::diagnostic::codes;
use memspec_parser::parser::parse;
use memspec_parser::walk_report::{exit_code_for, maybe_wrong_file_type, severity_counts, SliceCounts};
use memspec_parser::{Diagnostic, Severity, Span};

fn fixture_source() -> &'static str {
    r#"// Rule lifecycle: publishing and archiving a rule, with its changelog.
slice rule_lifecycle_minimal {
  meta {
    title: "Rule lifecycle (minimal)"
    memspec_version: "0.1"
  }

  walk 1 {
    summary: "initial walk of Rule#promote! and Rule#deprecate!"
  }

  cell rule_state {
    type: enum<draft | published | archived>
    mutable: true
    default: draft
    ref: "rule.rb:14"
  }

  cell rule_active {
    type: boolean
    mutable: true
    default: false
  }

  cell rule_changelogs {
    type: append_only_relation<rule_changelog>
    mutable: true
  }

  derived rule_is_live {
    derives_from: [rule_state, rule_active]
    derivation: "rule_state == published AND rule_active == true"
    materialised: false
  }

  association no_archived_active {
    invariant: "NOT (rule_state == archived AND rule_active == true)"
    over: [rule_state, rule_active]
    enforced_by: convention
  }

  event promote {
    trigger: "Rule#promote! called by approver"
    mutates: [rule_state, rule_active, rule_changelogs]
    atomicity: db_transaction

    step s1_update {
      op: "rule.update!(state: :published, active: true)"
      fallible: true
      mutates: [rule_state, rule_active]
    }

    step s2_changelog {
      op: "RuleChangelog.create!(...)"
      fallible: true
      mutates: [rule_changelogs]
      precondition: "s1_update succeeded"
    }
  }

  event deprecate {
    trigger: "Rule#deprecate! called by approver"
    mutates: [rule_state, rule_active, rule_changelogs]
    atomicity: db_transaction

    step s1_update {
      op: "rule.update!(state: :archived, active: false)"
      fallible: true
      mutates: [rule_state, rule_active]
    }

    step s2_changelog {
      op: "RuleChangelog.create!(...)"
      fallible: true
      mutates: [rule_changelogs]
    }
  }

  post_failure pf_promote_changelog_fail {
    event: promote
    step: s2_changelog
    outcome: "Err(ActiveRecord::RecordInvalid)"
    cells_after_pre_rollback {
      rule_state: published
      rule_active: true
      rule_changelogs: unchanged
    }
    cells_after_rollback {
      rule_state: unchanged
      rule_active: unchanged
      rule_changelogs: unchanged
    }
    result: rejected
  }

  post_failure pf_deprecate_changelog_fail {
    event: deprecate
    step: s2_changelog
    outcome: "Err(ActiveRecord::RecordInvalid)"
    cells_after_pre_rollback {
      rule_state: archived
      rule_active: false
      rule_changelogs: unchanged
    }
    cells_after_rollback {
      rule_state: unchanged
      rule_active: unchanged
      rule_changelogs: unchanged
    }
    result: rejected
  }

  forbidden_state fs_archived_active {
    description: "An archived rule that still claims active=true is logically broken."
    predicate: "rule_state == archived AND rule_active == true"
    reachability: currently_reachable
    kill_test: kt_archived_active
  }

  kill_test kt_archived_active {
    forbidden: fs_archived_active
    kind: structural
    assertion: "No code path produces (rule_state=archived, rule_active=true)."
    ref: "test/models/rule_test.rb:202-214"
    status: declared
  }
}
"#
}

fn parse_fixture() -> File {
    parse(fixture_source()).file
}

// ---------------------------------------------------------------------------
// Rendering
// ---------------------------------------------------------------------------

#[test]
fn markdown_renders_canonical_fixture() {
    let f = parse_fixture();
    let md = render_markdown(&f);
    for header in [
        "# rule_lifecycle_minimal",
        "## Cells",
        "## Derived",
        "## Associations",
        "## Events",
        "## Post-failure rows",
        "## Forbidden states",
        "## Kill-tests",
    ] {
        assert!(md.contains(header), "missing header `{header}`");
    }
    assert!(md.contains("`rule_state`"));
    assert!(md.contains("`rule_active`"));
    assert!(md.contains("`rule_changelogs`"));
    assert!(md.contains("enum<draft | published | archived>"));
    assert!(md.contains("| step | op | fallible | mutates | precondition |"));
}

#[test]
fn mermaid_renders_canonical_fixture() {
    let f = parse_fixture();
    let g = render_mermaid(&f);
    assert!(g.starts_with("graph TD"));
    assert!(g.contains("rule_state[("));
    assert!(g.contains("rule_is_live{{"));
    assert!(g.contains("promote(["));
    assert!(g.contains("promote ==mutates==> rule_state"));
    assert!(g.contains("⛔ fs_archived_active"));
    assert!(g.contains("kt_archived_active ==kill==> fs_archived_active"));
}

#[test]
fn markdown_handles_empty_slice() {
    let pr = parse("slice empty { }");
    let md = render_markdown(&pr.file);
    assert!(md.contains("# empty"));
}

#[test]
fn markdown_exact_for_small_slice() {
    let f = parse("slice s { cell c { type: boolean mutable: true } }").file;
    assert_eq!(render_markdown(&f), "# s\n\n## Cells\n\n- **`c`** — `boolean` (mutable)\n\n");
}

#[test]
fn markdown_without_slice() {
    let f = parse("").file;
    assert_eq!(render_markdown(&f), "*(no slice in file)*\n");
}

#[test]
fn markdown_escapes_table_cells_and_quotes_text() {
    let f = parse(
        r#"slice s {
            derived d { derives_from: [a] derivation: "  x  " }
            event e { mutates: [a] step s1 { op: "a|b" fallible: true } }
        }"#,
    )
    .file;
    let md = render_markdown(&f);
    assert!(md.contains("  - *derivation:* > x\n"));
    assert!(md.contains("| `s1` | `a\\|b` | yes | — | — |"));
}

#[test]
fn mermaid_without_slice() {
    let f = parse("").file;
    assert_eq!(render_mermaid(&f), "graph TD\n  empty[\"(no slice)\"]\n");
}

#[test]
fn mermaid_ids_are_made_safe() {
    let f = parse(r#"slice s { cell c { type: map<a, "x<y>"> mutable: true } }"#).file;
    let g = render_mermaid(&f);
    assert!(g.contains("  c[(\"c<br/><i>map&lt;a, &quot;x&lt;y&gt;&quot;&gt;</i>\")]\n"), "{g}");
}

fn two_file_loader() -> InMemoryLoader {
    InMemoryLoader::new()
        .with_file(
            "/root/main.memspec",
            r#"slice main {
                use "./other.memspec" as o
                derived d {
                    derives_from: [o.cell_a, local]
                    derivation: "..."
                }
                cell local { type: boolean mutable: true }
            }"#,
        )
        .with_file("/root/other.memspec", "slice other { cell cell_a { type: boolean mutable: true } }")
}

#[test]
fn mermaid_aggregate_links_slices() {
    let ws = load_with_imports(&two_file_loader(), "/root/main.memspec");
    let g = render_mermaid_aggregate(&ws);
    assert!(g.starts_with("graph TD\n  %% working set rooted at /root/main.memspec\n"));
    assert!(g.contains("  subgraph main_box [\"slice main\"]\n"));
    assert!(g.contains("  other__cell_a -.derives.-> main__d\n"), "{g}");
    assert!(g.contains("  main__local -.derives.-> main__d\n"));
    assert!(g.contains("  main_box -.imports as o.-> other_box\n"));
}

#[test]
fn markdown_aggregate_lists_slices_and_dependencies() {
    let ws = load_with_imports(&two_file_loader(), "/root/main.memspec");
    let md = render_markdown_aggregate(&ws);
    assert!(md.starts_with("# Working set\n\n**Root:** `/root/main.memspec`\n\n## Slices in this working set\n\n"));
    assert!(md.contains("- `main` *(root)* — `/root/main.memspec`\n"));
    assert!(md.contains("- `other` — `/root/./other.memspec`\n"));
    assert!(md.contains("- `main` imports:\n  - `o` → `other`\n"));
    assert!(md.contains("# Slice: `other`\n\n*File: `/root/./other.memspec`*\n\n## Cells\n"));
    assert!(md.contains("- `use \"./other.memspec\" as o`\n"));
}

// ---------------------------------------------------------------------------
// Revisions
// ---------------------------------------------------------------------------

#[test]
fn genesis_revision_builds_initial_import_without_rewriting_source() {
    let source = fixture_source();
    let file = parse(source).file;
    let report = build_genesis_revision(
        &file,
        source,
        Some("rule_lifecycle_minimal.memspec".to_owned()),
        "initial import".to_owned(),
        Some("codex".to_owned()),
    );

    assert_eq!(report.schema_version, REVISION_MANIFEST_VERSION);
    assert_eq!(report.slice.as_deref(), Some("rule_lifecycle_minimal"));
    assert_eq!(report.memspec_version.as_deref(), Some("0.1"));
    assert_eq!(report.revision.revision_number, 1);
    assert_eq!(report.revision.base_revision, None);
    assert_eq!(report.revision.base_hash, None);
    assert_eq!(report.revision.result_hash, report.materialized_view.source_hash);
    assert!(report.revision.result_hash.starts_with("sha256:"));

    assert_eq!(report.projection.walks, 1);
    assert_eq!(report.projection.cells, 3);
    assert_eq!(report.projection.derived, 1);
    assert_eq!(report.projection.associations, 1);
    assert_eq!(report.projection.events, 2);
    assert_eq!(report.projection.steps, 4);
    assert_eq!(report.projection.post_failures, 2);
    assert_eq!(report.projection.forbidden_states, 1);
    assert_eq!(report.projection.kill_tests, 1);
    assert_eq!(report.revision.ops.len(), 18);
}

#[test]
fn genesis_hash_changes_when_materialized_source_changes() {
    let source = fixture_source();
    let file = parse(source).file;
    let first = build_genesis_revision(&file, source, None, "initial import".to_owned(), None);

    let changed_source = format!("{source}\n// local edit\n");
    let changed_file = parse(&changed_source).file;
    let second = build_genesis_revision(&changed_file, &changed_source, None, "initial import".to_owned(), None);

    assert_ne!(first.materialized_view.source_hash, second.materialized_view.source_hash);
}

#[test]
fn canonical_projection_ignores_revisions_block_and_comments() {
    let source = r#"slice s {
  // comment
  cell c { type: boolean mutable: true }
  revisions {
    revision 1 {
      base_hash: null
      result_hash: "sha256:aaa"
      ops: []
      reason: "x"
    }
  }
}
"#;
    let file = parse(source).file;
    let projection = canonical_source_projection(&file);
    assert!(!projection.contains("revisions"));
    assert!(!projection.contains("comment"));
    assert!(projection.contains("cell c"));
}

#[test]
fn canonical_projection_exact_layout() {
    let file = parse("slice s { use \"./o.memspec\" as o cell c { type: enum<a | b> mutable: true } walk 1 { x: \"q\\\"\" } }").file;
    assert_eq!(
        canonical_source_projection(&file),
        "slice s {\n  use \"./o.memspec\" as o\n\n  cell c {\n    type: enum<a | b>\n    mutable: true\n  }\n\n  walk 1 {\n    x: \"q\\\"\"\n  }\n}\n"
    );
}

#[test]
fn source_hash_is_sha256_hex() {
    assert_eq!(
        source_sha256(""),
        "sha256:e3b0c44298fc1c149afbf4c8996fb92427ae41e4649b934ca495991b7852b855"
    );
    let h = source_sha256("slice s { }");
    assert_eq!(h.len(), "sha256:".len() + 64);
    assert!(h["sha256:".len()..].chars().all(|c| c.is_ascii_hexdigit() && !c.is_ascii_uppercase()));
}

#[test]
fn line_count_counts_a_last_line_without_newline() {
    assert_eq!(line_count(""), 0);
    assert_eq!(line_count("a"), 1);
    assert_eq!(line_count("a\n"), 1);
    assert_eq!(line_count("a\nb"), 2);
    assert_eq!(line_count("\n\n"), 2);
}

const BASE: &str = "slice s {\n  cell c { type: boolean mutable: true }\n}\n";

fn analyze_errors(source: &str) -> Vec<Diagnostic> {
    let pr = parse(source);
    let mut d = pr.diagnostics;
    d.extend(analyze(&pr.file).diagnostics);
    run(&pr.file, &mut d);
    d.into_iter().filter(|d| d.severity == Severity::Error).collect()
}

#[test]
fn synth_first_edit_appends_genesis_and_edit_revisions() {
    let s = synthesize_revision_source(BASE, None, String::new(), None).expect("synthesized");
    assert!(s.report.appended);
    assert!(!s.report.no_op);
    assert_eq!(s.report.revisions.len(), 2);
    assert_eq!(s.report.revisions[0].revision_number, 1);
    assert_eq!(s.report.revisions[1].revision_number, 2);
    assert_eq!(s.report.revisions[1].base_hash.as_deref(), Some(s.report.revisions[0].result_hash.as_str()));
    assert_eq!(s.report.revisions[1].reason, "automated edit via watcher");
    assert_eq!(s.report.message, "appended revision 2");
    assert_eq!(s.report.file_size, s.new_source.len());
    let projection = canonical_source_projection(&parse(BASE).file);
    assert_eq!(s.report.revisions[1].result_hash, source_sha256(&projection));
    assert!(s.new_source.contains("op: \"add_block\""));
    assert!(analyze_errors(&s.new_source).is_empty(), "{:#?}", analyze_errors(&s.new_source));
}

#[test]
fn synth_no_op_comment_edit_returns_zero_without_appending() {
    let first = synthesize_revision_source(BASE, None, "init".to_owned(), None).expect("synthesized");
    let edited = first.new_source.replacen("slice s {\n", "slice s {\n  // comment-only edit\n", 1);
    let second = synthesize_revision_source(&edited, None, "again".to_owned(), None).expect("synthesized");
    assert!(second.report.no_op);
    assert!(!second.report.appended);
    assert_eq!(second.new_source, edited);
    assert_eq!(second.report.message, "no semantic change - no revision appended");
}

#[test]
fn synth_appends_revision_and_replay_round_trips_to_current_text() {
    let first = synthesize_revision_source(BASE, None, "init".to_owned(), None).expect("synthesized");
    let edited = first.new_source.replacen("mutable: true }", "mutable: true default: false }", 1);
    let second = synthesize_revision_source(&edited, None, "default".to_owned(), Some("me".to_owned())).expect("synthesized");
    assert!(second.report.appended);
    assert_eq!(second.report.revisions.len(), 1);
    assert_eq!(second.report.revisions[0].revision_number, 3);
    assert_eq!(second.report.revisions[0].base_revision, Some(2));
    assert!(second.report.revisions[0].ops.iter().any(|op| matches!(op, SemanticPatchOp::ModifyField { .. })));
    assert!(second.new_source.contains("op: \"modify_field\""));
    assert!(second.new_source.contains("author: \"me\""));
    assert!(analyze_errors(&second.new_source).is_empty(), "{:#?}", analyze_errors(&second.new_source));
    let chain = collect_inline_revisions(&parse(&second.new_source).file);
    assert_eq!(chain.revisions.len(), 3);
    assert!(chain.diagnostics.is_empty());
}

#[test]
fn synth_refuses_invalid_source() {
    let e = synthesize_revision_source("slice s { cell c { type: ", None, String::new(), None).err().expect("refused");
    assert_eq!(e.message, "cannot synthesize revision for a syntactically invalid .memspec file");
    assert!(!e.diagnostics.is_empty());
}

fn analyze_source(source: &str) -> Vec<Diagnostic> {
    let parsed = parse(source);
    let mut diagnostics = parsed.diagnostics;
    diagnostics.extend(analyze(&parsed.file).diagnostics);
    run(&parsed.file, &mut diagnostics);
    diagnostics
}

fn has_code(diagnostics: &[Diagnostic], code: &'static str) -> bool {
    diagnostics.iter().any(|diagnostic| diagnostic.code == code)
}

fn projection_and_hash(source: &str) -> (String, String) {
    let file = parse(source).file;
    let projection = canonical_source_projection(&file);
    let hash = source_sha256(&projection);
    (projection, hash)
}

fn q(value: &str) -> String {
    let mut out = String::from("\"");
    for ch in value.chars() {
        match ch {
            '\\' => out.push_str("\\\\"),
            '"' => out.push_str("\\\""),
            '\n' => out.push_str("\\n"),
            '\r' => out.push_str("\\r"),
            '\t' => out.push_str("\\t"),
            other => out.push(other),
        }
    }
    out.push('"');
    out
}

fn base_source() -> &'static str {
    "slice s {\n  cell c { type: boolean mutable: true }\n}\n"
}

fn source_with_revisions(entries: &str) -> String {
    format!("slice s {{\n  cell c {{ type: boolean mutable: true }}\n\n  revisions {{\n{entries}  }}\n}}\n")
}

fn revision_entry(revision: u64, base_hash: Option<&str>, result_hash: &str, ops: &str, source: Option<&str>) -> String {
    let base = base_hash.map_or_else(|| "null".to_owned(), q);
    let source_field = source.map_or_else(String::new, |source| format!("      source: {}\n", q(source)));
    format!(
        "    revision {revision} {{\n      base_hash: {base}\n      result_hash: {}\n      ops: [{ops}]\n      reason: \"test\"\n{source_field}    }}\n",
        q(result_hash),
    )
}

#[test]
fn analyzer_rejects_chain_break() {
    let (projection, hash) = projection_and_hash(base_source());
    let bad_base = "sha256:aaaaaaaaaaaaaaaaaaaaaaaaaaaaaaaaaaaaaaaaaaaaaaaaaaaaaaaaaaaaaaaa";
    let entries = format!(
        "{}{}",
        revision_entry(1, None, bad_base, "", None),
        revision_entry(
            2,
            Some("sha256:bbbbbbbbbbbbbbbbbbbbbbbbbbbbbbbbbbbbbbbbbbbbbbbbbbbbbbbbbbbbbbbb"),
            &hash,
            "",
            Some(&projection)
        ),
    );
    let diagnostics = analyze_source(&source_with_revisions(&entries));

    assert!(has_code(&diagnostics, codes::E_REV_BASE_HASH_BREAK), "{diagnostics:#?}");
}

#[test]
fn analyzer_rejects_number_gap_duplicate_and_missing_genesis() {
    let (_, hash) = projection_and_hash(base_source());
    let h1 = "sha256:1111111111111111111111111111111111111111111111111111111111111111";
    let h2 = "sha256:2222222222222222222222222222222222222222222222222222222222222222";
    for entries in [
        format!("{}{}", revision_entry(1, None, h1, "", None), revision_entry(3, Some(h1), &hash, "", None)),
        format!(
            "{}{}{}",
            revision_entry(1, None, h1, "", None),
            revision_entry(2, Some(h1), h2, "", None),
            revision_entry(2, Some(h2), &hash, "", None),
        ),
        format!("{}{}", revision_entry(2, Some(h1), h2, "", None), revision_entry(3, Some(h2), &hash, "", None)),
    ] {
        let diagnostics = analyze_source(&source_with_revisions(&entries));
        assert!(has_code(&diagnostics, codes::E_REV_NUMBER_GAP), "{diagnostics:#?}");
    }
}

#[test]
fn analyzer_rejects_terminal_hash_mismatch() {
    let (_, hash) = projection_and_hash(base_source());
    let wrong_hash = "sha256:ffffffffffffffffffffffffffffffffffffffffffffffffffffffffffffffff";
    assert_ne!(hash, wrong_hash);
    let source = source_with_revisions(&revision_entry(1, None, wrong_hash, "", None));
    let diagnostics = analyze_source(&source);

    assert!(has_code(&diagnostics, codes::E_REV_TERMINAL_MISMATCH), "{diagnostics:#?}");
}

#[test]
fn long_replayable_chain_warns_without_errors() {
    let empty = "slice s {\n}\n";
    let (_, empty_hash) = projection_and_hash(empty);
    let mut entries = String::new();
    let mut previous: Option<String> = None;
    for n in 1..=201_u64 {
        entries.push_str(&revision_entry(n, previous.as_deref(), &empty_hash, "", None));
        previous = Some(empty_hash.clone());
    }
    let source = format!("slice s {{\n\n  revisions {{\n{entries}  }}\n}}\n");
    let diagnostics = analyze_source(&source);

    assert!(has_code(&diagnostics, codes::W_REV_LONG_CHAIN), "{diagnostics:#?}");
    assert!(
        diagnostics.iter().all(|diagnostic| diagnostic.severity != Severity::Error),
        "long valid chain should warn without failing: {diagnostics:#?}"
    );
}

#[test]
fn walks_reorder_is_rejected() {
    let (_, hash) = projection_and_hash(base_source());
    let op = r#"{ op: "reorder_items", block_path: [{ kind: "walks", name: "" }], new_order: ["2", "1"] }"#;
    let diagnostics = analyze_source(&source_with_revisions(&revision_entry(1, None, &hash, op, None)));

    assert!(has_code(&diagnostics, codes::E_REV_REORDER_FORBIDDEN_ON_WALKS), "{diagnostics:#?}");
}

#[test]
fn edited_source_after_synthesis_fails_terminal_check() {
    let first = synthesize_revision_source(BASE, None, "init".to_owned(), None).expect("synthesized");
    let edited = first.new_source.replacen("mutable: true }", "mutable: false }", 1);
    let pr = parse(&edited);
    let mut d = Vec::new();
    run(&pr.file, &mut d);
    assert!(d.iter().any(|d| d.code == codes::E_REV_TERMINAL_MISMATCH), "{d:#?}");
}

#[test]
fn analyzer_rejects_unknown_op_and_number_gap() {
    let src = "slice s {\n  cell c { type: boolean mutable: true }\n  revisions {\n    revision 2 {\n      base_hash: null\n      result_hash: \"sha256:x\"\n      ops: [{ op: \"frobnicate\" }]\n      reason: \"r\"\n    }\n  }\n}\n";
    let pr = parse(src);
    let mut d = Vec::new();
    run(&pr.file, &mut d);
    assert!(d.iter().any(|d| d.code == codes::E_REV_UNKNOWN_OP), "{d:#?}");
    assert!(d.iter().any(|d| d.code == codes::E_REV_NUMBER_GAP), "{d:#?}");
}

#[test]
fn no_revisions_block_means_no_revision_diagnostics() {
    let pr = parse(BASE);
    let mut d = Vec::new();
    run(&pr.file, &mut d);
    assert!(d.is_empty());
    let chain = collect_inline_revisions(&pr.file);
    assert!(chain.revisions_block_span.is_none());
}

// ---------------------------------------------------------------------------
// Walk reports
// ---------------------------------------------------------------------------

#[test]
fn slice_counts_of_fixture() {
    let c = SliceCounts::from_file(&parse_fixture());
    assert_eq!(c.slice_name.as_deref(), Some("rule_lifecycle_minimal"));
    assert_eq!((c.cells, c.derived, c.associations, c.events, c.steps), (3, 1, 1, 2, 4));
    assert_eq!((c.post_failure, c.forbidden_states, c.kill_tests, c.walks), (2, 1, 1, 1));
}

#[test]
fn exit_codes_follow_error_classes() {
    let lex = Diagnostic::error("memspec/E0003", Span::new(0, 1), "x".to_owned());
    let sem = Diagnostic::error("memspec/E0252", Span::new(0, 1), "x".to_owned());
    let warn = Diagnostic::warning("memspec/W0270", Span::new(0, 1), "x".to_owned());
    let odd = Diagnostic::error("custom", Span::new(0, 1), "x".to_owned());
    assert_eq!(exit_code_for(&vec![]), 0);
    assert_eq!(exit_code_for(&vec![warn.clone()]), 0);
    assert_eq!(exit_code_for(&vec![sem.clone(), lex.clone()]), 2);
    assert_eq!(exit_code_for(&vec![sem.clone(), warn.clone()]), 3);
    assert_eq!(exit_code_for(&vec![odd]), 3);
    let (e, w, i) = severity_counts(&vec![sem, lex, warn]);
    assert_eq!((e, w, i), (2, 1, 0));
}

#[test]
fn markdown_file_gets_friendly_e0006_not_diagnostic_flood() {
    let md = "# Slice plan\n\n- [ ] one\n- [ ] two\n\n## Notes\n\n> a quote\n\n`code` and #tags @ here ~ there\n";
    let pr = parse(md);
    let mut d = pr.diagnostics;
    d.extend(analyze(&pr.file).diagnostics);
    let flood = d.iter().filter(|d| d.code == "memspec/E0003").count();
    assert!(flood >= 10, "expected a lexer flood, got {flood}");
    let friendly = maybe_wrong_file_type(&d, md, "/tmp/slice-plan.md").expect("replaced");
    assert_eq!(friendly.code, "memspec/E0006");
    assert!(friendly.message.contains("(file is `.md` — looks like markdown)"));
    assert_eq!(exit_code_for(&vec![friendly]), 2);
}

#[test]
fn real_memspec_with_bad_content_still_reports_honestly() {
    let src = "slice s {\n  cell c { type: boolean mutable: true }\n  event e { mutates: [ghost] step s1 { op: \"x\" fallible: true mutates: [c] } }\n}\n";
    let pr = parse(src);
    let mut d = pr.diagnostics;
    d.extend(analyze(&pr.file).diagnostics);
    assert!(maybe_wrong_file_type(&d, src, "/tmp/typo.memspec").is_none());
    assert!(d.iter().any(|d| d.code == "memspec/E0252"));
    assert_eq!(exit_code_for(&d), 3);
}


fn field_text(file: &File, cell: &str, key: &str) -> Option<String> {
    let slice = file.slice.as_ref()?;
    for it in &slice.items {
        if let memspec_parser::ast::BlockItem::Block(b) = it {
            let named = matches!(&b.name, Some(memspec_parser::ast::BlockName::Ident(i)) if i.name == cell);
            if b.kind.name == "cell" && named {
                for f in &b.items {
                    if let memspec_parser::ast::BlockItem::Field(f) = f {
                        if f.key.name == key {
                            return Some(match &f.value {
                                memspec_parser::ast::FieldValue::Ident(i) => i.name.clone(),
                                memspec_parser::ast::FieldValue::Bool { value, .. } => value.to_string(),
                                _ => String::from("?"),
                            });
                        }
                    }
                }
            }
        }
    }
    None
}

#[test]
fn replay_path_ops_change_only_the_target_field() {
    let mut file = parse("slice s {\n  cell a { type: boolean mutable: true }\n  cell b { type: boolean mutable: true }\n}\n").file;
    let path = vec![BlockPathSegment { kind: "cell".to_owned(), name: "a".to_owned() }];
    let op = SemanticPatchOp::ModifyField { block_path: path.clone(), field_name: "mutable".to_owned(), value: "false".to_owned() };
    assert!(apply_revision_op(&mut file, &op, Span::new(0, 0)).is_ok());
    assert_eq!(field_text(&file, "a", "mutable").as_deref(), Some("false"));
    assert_eq!(field_text(&file, "b", "mutable").as_deref(), Some("true"));
    let rm = SemanticPatchOp::RemoveField { block_path: path.clone(), field_name: "type".to_owned() };
    assert!(apply_revision_op(&mut file, &rm, Span::new(0, 0)).is_ok());
    assert_eq!(field_text(&file, "a", "type"), None);
    assert_eq!(field_text(&file, "b", "type").as_deref(), Some("boolean"));
    // Removing it again fails and changes nothing.
    assert!(apply_revision_op(&mut file, &rm, Span::new(0, 0)).is_err());
    let missing = vec![BlockPathSegment { kind: "cell".to_owned(), name: "zz".to_owned() }];
    let bad = SemanticPatchOp::RemoveField { block_path: missing, field_name: "type".to_owned() };
    assert!(apply_revision_op(&mut file, &bad, Span::new(0, 0)).is_err());
}

fn step_names(file: &File, event: &str) -> Vec<String> {
    let mut out = Vec::new();
    if let Some(slice) = &file.slice {
        for item in &slice.items {
            if let memspec_parser::ast::BlockItem::Block(b) = item {
                if b.kind.name == "event" && block_name_text(b).as_deref() == Some(event) {
                    for inner in &b.items {
                        if let memspec_parser::ast::BlockItem::Block(s) = inner {
                            if s.kind.name == "step" {
                                out.push(block_name_text(s).unwrap_or_default());
                            }
                        }
                    }
                }
            }
        }
    }
    out
}

fn block_name_text(b: &memspec_parser::ast::BlockDecl) -> Option<String> {
    match &b.name {
        Some(memspec_parser::ast::BlockName::Ident(i)) => Some(i.name.clone()),
        _ => None,
    }
}

#[test]
fn replay_reorder_moves_steps_and_refuses_repeated_names() {
    let mut file = parse("slice s {\n  event e {\n    step a { x: 1 }\n    step b { x: 2 }\n  }\n}\n").file;
    let path = vec![BlockPathSegment { kind: "event".to_owned(), name: "e".to_owned() }];
    let op = SemanticPatchOp::ReorderItems { block_path: path.clone(), new_order: vec!["b".to_owned(), "a".to_owned()] };
    assert!(apply_revision_op(&mut file, &op, Span::new(0, 0)).is_ok());
    assert_eq!(step_names(&file, "e"), vec!["b".to_owned(), "a".to_owned()]);
    // Two steps named `a`: the names match as sets but cannot be reordered.
    let mut dup = parse("slice s {\n  event e {\n    step a { x: 1 }\n    step a { x: 2 }\n  }\n}\n").file;
    let op = SemanticPatchOp::ReorderItems { block_path: path, new_order: vec!["a".to_owned()] };
    assert!(apply_revision_op(&mut dup, &op, Span::new(0, 0)).is_err());
}
