use std::path::Path;

use memspec_parser::analysis::diff::diff;
use memspec_parser::analysis::loader::{load_with_imports, InMemoryLoader};
use memspec_parser::analysis::query::{by_id, gaps, list_ids, refs_to};
use memspec_parser::analysis::suggest::{
    extract_quoted_after, id_from_message, parse_event_step, suggest_from_source, GapKind, InsertHint,
    SuggestReport, SuggestStatus,
};
use memspec_parser::analysis::{analyze, analyze_working_set, coherence, composition, cross_slice, structural, symmetric_failure};
use memspec_parser::ast::File;
use memspec_parser::diagnostic::codes;
use memspec_parser::lexer::tokenize;
use memspec_parser::parser::parse;
use memspec_parser::token::TokenKind;
use memspec_parser::{Diagnostic, Severity};

/// The canonical fixture: the rule lifecycle slice.
fn fixture_source() -> &'static str {
    r#"// Rule lifecycle: publishing and archiving a rule, with its changelog.
slice rule_lifecycle_minimal {
  meta {
    title: "Rule lifecycle (minimal)"
    memspec_version: "0.1"
  }

  walk 1 {
    summary: "initial walk of Rule#promote! and Rule#deprecate!"
  }

  cell rule_state {
    type: enum<draft | published | archived>
    mutable: true
    default: draft
    ref: "rule.rb:14"
  }

  cell rule_active {
    type: boolean
    mutable: true
    default: false
  }

  cell rule_changelogs {
    type: append_only_relation<rule_changelog>
    mutable: true
  }

  derived rule_is_live {
    derives_from: [rule_state, rule_active]
    derivation: "rule_state == published AND rule_active == true"
    materialised: false
  }

  association no_archived_active {
    invariant: "NOT (rule_state == archived AND rule_active == true)"
    over: [rule_state, rule_active]
    enforced_by: convention
  }

  event promote {
    trigger: "Rule#promote! called by approver"
    mutates: [rule_state, rule_active, rule_changelogs]
    atomicity: db_transaction

    step s1_update {
      op: "rule.update!(state: :published, active: true)"
      fallible: true
      mutates: [rule_state, rule_active]
    }

    step s2_changelog {
      op: "RuleChangelog.create!(...)"
      fallible: true
      mutates: [rule_changelogs]
      precondition: "s1_update succeeded"
    }
  }

  event deprecate {
    trigger: "Rule#deprecate! called by approver"
    mutates: [rule_state, rule_active, rule_changelogs]
    atomicity: db_transaction

    step s1_update {
      op: "rule.update!(state: :archived, active: false)"
      fallible: true
      mutates: [rule_state, rule_active]
    }

    step s2_changelog {
      op: "RuleChangelog.create!(...)"
      fallible: true
      mutates: [rule_changelogs]
    }
  }

  post_failure pf_promote_changelog_fail {
    event: promote
    step: s2_changelog
    outcome: "Err(ActiveRecord::RecordInvalid)"
    cells_after_pre_rollback {
      rule_state: published
      rule_active: true
      rule_changelogs: unchanged
    }
    cells_after_rollback {
      rule_state: unchanged
      rule_active: unchanged
      rule_changelogs: unchanged
    }
    result: rejected
  }

  post_failure pf_deprecate_changelog_fail {
    event: deprecate
    step: s2_changelog
    outcome: "Err(ActiveRecord::RecordInvalid)"
    cells_after_pre_rollback {
      rule_state: archived
      rule_active: false
      rule_changelogs: unchanged
    }
    cells_after_rollback {
      rule_state: unchanged
      rule_active: unchanged
      rule_changelogs: unchanged
    }
    result: rejected
  }

  forbidden_state fs_archived_active {
    description: "An archived rule that still claims active=true is logically broken."
    predicate: "rule_state == archived AND rule_active == true"
    reachability: currently_reachable
    kill_test: kt_archived_active
  }

  kill_test kt_archived_active {
    forbidden: fs_archived_active
    kind: structural
    assertion: "No code path produces (rule_state=archived, rule_active=true)."
    ref: "test/models/rule_test.rb:202-214"
    status: declared
  }
}
"#
}

fn parse_fixture() -> File {
    parse(fixture_source()).file
}

fn errors(d: &[Diagnostic]) -> Vec<&Diagnostic> {
    d.iter().filter(|d| d.severity == Severity::Error).collect()
}

// ---------------------------------------------------------------------------
// Front end on the fixture
// ---------------------------------------------------------------------------

#[test]
fn lexes_canonical_fixture_without_errors() {
    let stream = tokenize(fixture_source());
    assert!(stream.diagnostics.is_empty(), "expected no lex diagnostics on canonical fixture, got: {:?}", stream.diagnostics);
    assert!(stream.tokens.iter().any(|t| matches!(&t.kind, TokenKind::Identifier(s) if s == "slice")));
    assert!(stream.tokens.last().is_some_and(|t| matches!(t.kind, TokenKind::Eof)));
}

#[test]
fn parses_canonical_fixture_without_diagnostics() {
    let r = parse(fixture_source());
    assert!(r.diagnostics.is_empty(), "expected canonical fixture to parse cleanly, got: {:#?}", r.diagnostics);
    let slice = r.file.slice.expect("expected a slice");
    assert_eq!(slice.name.name, "rule_lifecycle_minimal");
    assert!(slice.items.len() >= 11, "expected ≥11 top-level items, got {}", slice.items.len());
}

// ---------------------------------------------------------------------------
// Structural
// ---------------------------------------------------------------------------

fn structural_str(src: &str) -> Vec<Diagnostic> {
    let pr = parse(src);
    let mut diags = pr.diagnostics;
    structural::run(&pr.file, &mut diags);
    diags
}

#[test]
fn empty_slice_emits_diagnostic() {
    let d = structural_str("slice s { }");
    assert!(d.iter().any(|d| d.code == codes::E_STRUCT_EMPTY_SLICE));
}

#[test]
fn cell_missing_type_and_mutable() {
    let d = structural_str("slice s { cell c { } }");
    let missing: Vec<_> = d.iter().filter(|d| d.code == codes::E_STRUCT_MISSING_FIELD).collect();
    assert_eq!(missing.len(), 2, "expected 2 missing-field diagnostics, got: {missing:#?}");
}

#[test]
fn event_with_no_steps_emits_diagnostic() {
    let d = structural_str(
        r#"slice s {
                event e {
                    mutates: [c]
                }
            }"#,
    );
    assert!(d.iter().any(|d| d.code == codes::E_STRUCT_EVENT_NO_STEPS));
}

#[test]
fn forbidden_state_without_predicate_or_cells() {
    let d = structural_str(
        r#"slice s {
                forbidden_state f {
                    description: "bad"
                    reachability: currently_reachable
                    kill_test: kt
                }
            }"#,
    );
    assert!(d.iter().any(|d| d.code == codes::E_STRUCT_FORBIDDEN_STATE_BODY));
}

#[test]
fn forbidden_state_with_predicate_passes() {
    let d = structural_str(
        r#"slice s {
                forbidden_state f {
                    description: "bad"
                    predicate: "a == b"
                    reachability: currently_reachable
                    kill_test: kt
                }
            }"#,
    );
    assert!(!d.iter().any(|d| d.code == codes::E_STRUCT_FORBIDDEN_STATE_BODY));
}

#[test]
fn kill_test_with_no_status_emits_info() {
    let d = structural_str(
        r#"slice s {
                kill_test kt {
                    forbidden: f
                    kind: structural
                    assertion: "x"
                }
            }"#,
    );
    assert!(d.iter().any(|d| d.code == codes::I_STRUCT_KILL_TEST_TODO));
}

#[test]
fn canonical_fixture_passes_structural_pass() {
    let pr = parse(fixture_source());
    assert!(pr.diagnostics.is_empty(), "fixture should parse cleanly");
    let mut diags = Vec::new();
    structural::run(&pr.file, &mut diags);
    let errors_or_warnings: Vec<_> = diags.iter().filter(|d| d.severity != Severity::Info).collect();
    assert!(errors_or_warnings.is_empty(), "canonical fixture should pass structural pass; got: {errors_or_warnings:#?}");
}

#[test]
fn cell_without_name_emits_diagnostic() {
    let d = structural_str("slice s { cell { type: boolean mutable: true } }");
    assert!(d.iter().any(|d| d.code == codes::E_STRUCT_MISSING_FIELD));
}

#[test]
fn anonymous_cells_after_pre_rollback_satisfies_post_failure() {
    let d = structural_str(
        r#"slice s {
                post_failure pf {
                    event: e
                    step: s1
                    outcome: "Err(...)"
                    cells_after_pre_rollback {
                        a: published
                    }
                    cells_after_rollback {
                        a: unchanged
                    }
                }
            }"#,
    );
    assert!(!d.iter().any(|d| d.code == codes::E_STRUCT_MISSING_FIELD && d.message.contains("cells_after")));
}

// ---------------------------------------------------------------------------
// Coherence
// ---------------------------------------------------------------------------

fn coherence_str(src: &str) -> Vec<Diagnostic> {
    let pr = parse(src);
    let mut diags = Vec::new();
    coherence::run(&pr.file, &mut diags);
    diags
}

#[test]
fn duplicate_id_across_kinds_emits_diagnostic() {
    let d = coherence_str(
        "slice s { cell foo { type: boolean mutable: true } event foo { mutates: [foo] step s { op: \"x\" fallible: true } } }",
    );
    assert!(d.iter().any(|d| d.code == codes::E_COH_DUPLICATE_ID), "expected duplicate-id diagnostic, got: {d:#?}");
}

#[test]
fn unresolved_cell_ref_in_mutates() {
    let d = coherence_str(
        r#"slice s {
                cell c { type: boolean mutable: true }
                event e {
                    mutates: [does_not_exist]
                    step s1 { op: "x" fallible: true mutates: [does_not_exist] }
                }
            }"#,
    );
    let unresolved: Vec<_> = d.iter().filter(|d| d.code == codes::E_COH_UNRESOLVED_CELL_REF).collect();
    assert!(unresolved.len() >= 2, "expected ≥2 unresolved-cell diagnostics (event + step)");
}

#[test]
fn unresolved_cell_ref_in_derives_from() {
    let d = coherence_str(
        r#"slice s {
                cell a { type: boolean mutable: true }
                derived d {
                    derives_from: [a, ghost]
                    derivation: "a"
                }
            }"#,
    );
    assert!(d.iter().any(|d| d.code == codes::E_COH_UNRESOLVED_CELL_REF));
}

#[test]
fn forbidden_state_kill_test_resolves() {
    let d = coherence_str(
        r#"slice s {
                cell c { type: boolean mutable: true }
                forbidden_state fs {
                    description: "x"
                    predicate: "c == true"
                    reachability: currently_reachable
                    kill_test: kt
                }
                kill_test kt {
                    forbidden: fs
                    kind: structural
                    assertion: "x"
                    status: declared
                }
            }"#,
    );
    let errors = errors(&d);
    assert!(errors.is_empty(), "expected clean coherence pass, got: {errors:#?}");
}

#[test]
fn bipartite_mismatch_caught() {
    let d = coherence_str(
        r#"slice s {
                forbidden_state fs1 {
                    description: "x"
                    predicate: "x"
                    reachability: currently_reachable
                    kill_test: kt
                }
                forbidden_state fs2 {
                    description: "x"
                    predicate: "x"
                    reachability: currently_reachable
                    kill_test: TODO
                }
                kill_test kt {
                    forbidden: fs2
                    kind: structural
                    assertion: "x"
                    status: declared
                }
            }"#,
    );
    assert!(d.iter().any(|d| d.code == codes::E_COH_BIPARTITE_MISMATCH));
}

#[test]
fn kill_test_forbidden_unresolved() {
    let d = coherence_str(
        r#"slice s {
                kill_test kt {
                    forbidden: ghost
                    kind: structural
                    assertion: "x"
                    status: declared
                }
            }"#,
    );
    assert!(d.iter().any(|d| d.code == codes::E_COH_UNRESOLVED_FORBIDDEN_REF));
}

#[test]
fn forbidden_state_kill_test_todo_no_error() {
    let d = coherence_str(
        r#"slice s {
                forbidden_state fs {
                    description: "x"
                    predicate: "x"
                    reachability: currently_reachable
                    kill_test: TODO
                }
            }"#,
    );
    assert!(!d.iter().any(|d| d.code == codes::E_COH_UNRESOLVED_KILL_TEST_REF));
}

#[test]
fn unused_cell_warning() {
    let d = coherence_str(
        r#"slice s {
                cell unused { type: boolean mutable: true }
                cell used { type: boolean mutable: true }
                event e {
                    mutates: [used]
                    step s1 { op: "x" fallible: true mutates: [used] }
                }
            }"#,
    );
    let warnings: Vec<_> = d.iter().filter(|d| d.code == codes::W_COH_UNUSED_CELL).collect();
    assert_eq!(warnings.len(), 1);
    assert!(warnings[0].message.contains("unused"));
}

#[test]
fn derivation_cycle_caught() {
    let d = coherence_str(
        r#"slice s {
                cell base { type: boolean mutable: true }
                derived d1 {
                    derives_from: [d2]
                    derivation: "d2"
                }
                derived d2 {
                    derives_from: [d1]
                    derivation: "d1"
                }
            }"#,
    );
    assert!(d.iter().any(|d| d.code == codes::E_COH_DERIVATION_CYCLE), "expected derivation-cycle diagnostic, got: {d:#?}");
}

#[test]
fn post_failure_step_must_be_fallible() {
    let d = coherence_str(
        r#"slice s {
                cell c { type: boolean mutable: true }
                event e {
                    mutates: [c]
                    step s1 { op: "x" fallible: false mutates: [c] }
                }
                post_failure pf {
                    event: e
                    step: s1
                    outcome: "Err"
                    cells_after_pre_rollback { c: true }
                    cells_after_rollback { c: false }
                }
            }"#,
    );
    assert!(d.iter().any(|d| d.code == codes::E_COH_STEP_NOT_FALLIBLE));
}

#[test]
fn post_failure_unknown_event() {
    let d = coherence_str(
        r#"slice s {
                cell c { type: boolean mutable: true }
                post_failure pf {
                    event: ghost
                    step: s1
                    outcome: "Err"
                    cells_after { c: true }
                }
            }"#,
    );
    assert!(d.iter().any(|d| d.code == codes::E_COH_UNRESOLVED_EVENT_REF));
}

#[test]
fn redundant_behavioural_kill_test_warning() {
    let d = coherence_str(
        r#"slice s {
                cell c { type: boolean mutable: true }
                forbidden_state fs {
                    description: "x"
                    predicate: "c == true"
                    reachability: structurally_unreachable
                    kill_test: kt
                }
                kill_test kt {
                    forbidden: fs
                    kind: behavioural
                    assertion: "x"
                    status: declared
                }
            }"#,
    );
    assert!(d.iter().any(|d| d.code == codes::W_COH_REDUNDANT_KILL_TEST));
}

#[test]
fn canonical_fixture_passes_coherence() {
    let pr = parse(fixture_source());
    assert!(pr.diagnostics.is_empty(), "fixture should parse cleanly");
    let mut diags = Vec::new();
    coherence::run(&pr.file, &mut diags);
    let errors = errors(&diags);
    assert!(errors.is_empty(), "canonical fixture should pass coherence pass; got errors: {errors:#?}");
}

#[test]
fn coherence_pass_keeps_earlier_diagnostics() {
    let pr = parse("slice s { cell c { type: boolean mutable: true } }");
    let mut diags = Vec::new();
    structural::run(&pr.file, &mut diags);
    let before = diags.len();
    let first_codes: Vec<_> = diags.iter().map(|d| d.code).collect();
    coherence::run(&pr.file, &mut diags);
    assert!(diags.len() >= before);
    let kept: Vec<_> = diags[..before].iter().map(|d| d.code).collect();
    assert_eq!(kept, first_codes);
}

// ---------------------------------------------------------------------------
// Symmetric failure
// ---------------------------------------------------------------------------

fn symfail_str(src: &str) -> Vec<Diagnostic> {
    let pr = parse(src);
    let mut diags = Vec::new();
    symmetric_failure::run(&pr.file, &mut diags);
    diags
}

#[test]
fn no_check_for_event_with_only_one_fallible_step() {
    let d = symfail_str(
        r#"slice s {
                cell c { type: boolean mutable: true }
                event e {
                    mutates: [c]
                    atomicity: db_transaction
                    step s1 { op: "x" fallible: true mutates: [c] }
                    step s2 { op: "y" fallible: false mutates: [c] }
                }
            }"#,
    );
    assert!(d.iter().all(|d| d.code != codes::E_SYMFAIL_MISSING_POST_FAILURE));
}

#[test]
fn missing_post_failure_for_second_fallible_step() {
    let d = symfail_str(
        r#"slice s {
                cell c { type: boolean mutable: true }
                event e {
                    mutates: [c]
                    atomicity: db_transaction
                    step s1 { op: "x" fallible: true mutates: [c] }
                    step s2 { op: "y" fallible: true mutates: [c] }
                }
            }"#,
    );
    assert!(d.iter().any(|d| d.code == codes::E_SYMFAIL_MISSING_POST_FAILURE), "expected missing-post_failure diagnostic, got: {d:#?}");
}

#[test]
fn satisfied_with_post_failure_row_and_rollback_pair() {
    let d = symfail_str(
        r#"slice s {
                cell c { type: boolean mutable: true }
                event e {
                    mutates: [c]
                    atomicity: db_transaction
                    step s1 { op: "x" fallible: true mutates: [c] }
                    step s2 { op: "y" fallible: true mutates: [c] }
                }
                post_failure pf {
                    event: e
                    step: s2
                    outcome: "Err"
                    cells_after_pre_rollback { c: true }
                    cells_after_rollback { c: false }
                }
            }"#,
    );
    assert!(d.is_empty(), "expected clean run, got: {d:#?}");
}

#[test]
fn transactional_event_requires_rollback_pair() {
    let d = symfail_str(
        r#"slice s {
                cell c { type: boolean mutable: true }
                event e {
                    mutates: [c]
                    atomicity: db_transaction
                    step s1 { op: "x" fallible: true mutates: [c] }
                    step s2 { op: "y" fallible: true mutates: [c] }
                }
                post_failure pf {
                    event: e
                    step: s2
                    outcome: "Err"
                    cells_after { c: true }
                }
            }"#,
    );
    assert!(d.iter().any(|d| d.code == codes::E_SYMFAIL_MISSING_ROLLBACK_PAIR), "expected missing-rollback-pair diagnostic, got: {d:#?}");
}

#[test]
fn non_transactional_event_accepts_single_cells_after() {
    let d = symfail_str(
        r#"slice s {
                cell c { type: boolean mutable: true }
                event e {
                    mutates: [c]
                    atomicity: none
                    step s1 { op: "x" fallible: true mutates: [c] }
                    step s2 { op: "y" fallible: true mutates: [c] }
                }
                post_failure pf {
                    event: e
                    step: s2
                    outcome: "Err"
                    cells_after { c: true }
                }
            }"#,
    );
    assert!(d.iter().all(|d| d.code != codes::E_SYMFAIL_MISSING_ROLLBACK_PAIR));
}

#[test]
fn first_fallible_step_does_not_require_post_failure() {
    let d = symfail_str(
        r#"slice s {
                cell c { type: boolean mutable: true }
                event e {
                    mutates: [c]
                    step s1 { op: "x" fallible: true mutates: [c] }
                    step s2 { op: "y" fallible: true mutates: [c] }
                }
                post_failure pf {
                    event: e
                    step: s2
                    outcome: "Err"
                    cells_after { c: true }
                }
            }"#,
    );
    assert!(d.iter().all(|d| d.code != codes::E_SYMFAIL_MISSING_POST_FAILURE));
}

// ---------------------------------------------------------------------------
// Whole-file analysis
// ---------------------------------------------------------------------------

#[test]
fn analyze_fixture_has_no_errors() {
    let f = parse_fixture();
    let r = analyze(&f);
    assert!(errors(&r.diagnostics).is_empty(), "{:#?}", r.diagnostics);
}

#[test]
fn analyze_runs_structural_then_coherence_then_symmetric() {
    let src = r#"slice s {
        cell c { type: boolean }
        event e {
            mutates: [c, ghost]
            step s1 { op: "x" fallible: true mutates: [c] }
            step s2 { op: "y" fallible: true mutates: [c] }
        }
    }"#;
    let f = parse(src).file;
    let r = analyze(&f);
    let pos = |code: &str| r.diagnostics.iter().position(|d| d.code == code).expect("code present");
    assert!(pos(codes::E_STRUCT_MISSING_FIELD) < pos(codes::E_COH_UNRESOLVED_CELL_REF));
    assert!(pos(codes::E_COH_UNRESOLVED_CELL_REF) < pos(codes::E_SYMFAIL_MISSING_POST_FAILURE));
}

// ---------------------------------------------------------------------------
// Query
// ---------------------------------------------------------------------------

#[test]
fn list_ids_finds_all_canonical_ids() {
    let f = parse_fixture();
    let r = list_ids(&f);
    assert_eq!(r.slice.as_deref(), Some("rule_lifecycle_minimal"));
    assert_eq!(r.cells.len(), 3);
    assert_eq!(r.derived.len(), 1);
    assert_eq!(r.associations.len(), 1);
    assert_eq!(r.events.len(), 2);
    assert_eq!(r.post_failures.len(), 2);
    assert_eq!(r.forbidden_states.len(), 1);
    assert_eq!(r.kill_tests.len(), 1);
    assert_eq!(r.walks, vec![1]);
    let promote = r.events.iter().find(|e| e.id == "promote").expect("promote present");
    assert_eq!(promote.steps, vec!["s1_update", "s2_changelog"]);
}

#[test]
fn by_id_finds_top_level_block() {
    let f = parse_fixture();
    let r = by_id(&f, "rule_state").expect("rule_state present");
    assert_eq!(r.id, "rule_state");
    assert_eq!(r.kind, "cell");
}

#[test]
fn by_id_finds_event_step() {
    let f = parse_fixture();
    let r = by_id(&f, "s1_update").expect("step present");
    assert_eq!(r.id, "promote.s1_update");
    assert_eq!(r.kind, "step");
}

#[test]
fn by_id_returns_none_for_missing() {
    let f = parse_fixture();
    assert!(by_id(&f, "ghost").is_none());
}

#[test]
fn refs_to_finds_cell_uses() {
    let f = parse_fixture();
    let r = refs_to(&f, "rule_state");
    assert!(r.references.len() >= 5, "expected ≥5 refs to rule_state, got {}: {:#?}", r.references.len(), r.references);
    assert!(r.references.iter().any(|s| s.from.starts_with("event/promote") && s.field == "mutates"));
}

#[test]
fn gaps_canonical_fixture_only_kill_test_status() {
    let f = parse_fixture();
    let g = gaps(&f);
    assert_eq!(g.kill_tests_unresolved.len(), 1);
    assert_eq!(g.kill_tests_unresolved[0].status, "declared");
    assert_eq!(g.unkilled_forbidden_states.len(), 1);
    assert!(g.missing_post_failure.is_empty(), "expected no missing post_failure rows");
    assert!(g.unused_cells.is_empty(), "expected no unused cells");
}

#[test]
fn gaps_unused_cell_surfaces() {
    let pr = parse(
        r#"slice s {
                cell used { type: boolean mutable: true }
                cell unused { type: boolean mutable: true }
                event e {
                    mutates: [used]
                    step s1 { op: "x" fallible: true mutates: [used] }
                }
            }"#,
    );
    let g = gaps(&pr.file);
    assert_eq!(g.unused_cells.len(), 1);
    assert_eq!(g.unused_cells[0].id, "unused");
}

#[test]
fn gaps_missing_post_failure_surfaces() {
    let pr = parse(
        r#"slice s {
                cell c { type: boolean mutable: true }
                event e {
                    mutates: [c]
                    step s1 { op: "x" fallible: true mutates: [c] }
                    step s2 { op: "y" fallible: true mutates: [c] }
                }
            }"#,
    );
    let g = gaps(&pr.file);
    assert_eq!(g.missing_post_failure.len(), 1);
    assert_eq!(g.missing_post_failure[0].event, "e");
    assert_eq!(g.missing_post_failure[0].step, "s2");
}

#[test]
fn gaps_missing_rows_agree_with_symmetric_failure_pass() {
    let src = r#"slice s {
        cell c { type: boolean mutable: true }
        event e {
            mutates: [c]
            step s1 { op: "x" fallible: true mutates: [c] }
            step s2 { op: "y" fallible: true mutates: [c] }
            step s3 { op: "z" fallible: true mutates: [c] }
        }
    }"#;
    let f = parse(src).file;
    let g = gaps(&f);
    let mut d = Vec::new();
    symmetric_failure::run(&f, &mut d);
    let missing = d.iter().filter(|d| d.code == codes::E_SYMFAIL_MISSING_POST_FAILURE).count();
    assert_eq!(g.missing_post_failure.len(), missing);
    assert_eq!(missing, 2);
}

// ---------------------------------------------------------------------------
// Diff
// ---------------------------------------------------------------------------

#[test]
fn diff_from_0_to_1_lists_everything() {
    let f = parse_fixture();
    let r = diff(&f, 0, 1).expect("ok");
    assert_eq!(r.added.len(), 11);
    assert_eq!(r.walks_in_range.len(), 1);
    assert_eq!(r.walks_in_range[0].walk, 1);
    assert_eq!(r.steps_added.len(), 4);
}

#[test]
fn diff_from_1_to_1_is_empty() {
    let f = parse_fixture();
    let r = diff(&f, 1, 1).expect("ok");
    assert!(r.added.is_empty());
    assert!(r.changed.is_empty());
    assert!(r.killed.is_empty());
    assert!(r.steps_added.is_empty());
}

#[test]
fn diff_from_1_to_2_only_returns_walk_2_clauses() {
    let pr = parse(
        r#"slice s {
                walk 1 { summary: "first" }
                walk 2 { summary: "second" added: [b] killed: [a] }
                cell a {
                    type: boolean
                    mutable: true
                    walk_added: 1
                    walk_killed: 2
                }
                cell b {
                    type: boolean
                    mutable: true
                    walk_added: 2
                }
            }"#,
    );
    let r = diff(&pr.file, 1, 2).expect("ok");
    assert_eq!(r.added.len(), 1);
    assert_eq!(r.added[0].id, "b");
    assert_eq!(r.killed.len(), 1);
    assert_eq!(r.killed[0].id, "a");
    assert_eq!(r.walks_in_range.len(), 1);
    assert_eq!(r.walks_in_range[0].walk, 2);
    assert_eq!(r.walks_in_range[0].summary.as_deref(), Some("second"));
}

#[test]
fn diff_supersedence_tracked() {
    let pr = parse(
        r#"slice s {
                walk 1 { summary: "first" }
                walk 2 { summary: "second" }
                cell a {
                    type: boolean
                    mutable: true
                    walk_added: 1
                    walk_superseded: 2
                }
                cell b {
                    type: boolean
                    mutable: true
                    walk_added: 2
                }
            }"#,
    );
    let r = diff(&pr.file, 1, 2).expect("ok");
    assert_eq!(r.superseded.len(), 1);
    assert_eq!(r.superseded[0].id, "a");
}

#[test]
fn diff_with_invalid_range_errors() {
    let f = parse_fixture();
    assert!(diff(&f, 5, 1).is_err());
}

#[test]
fn diff_invalid_range_message() {
    let f = parse_fixture();
    assert_eq!(diff(&f, 5, 1).err(), Some("invalid range: from=5 > to=1".to_owned()));
}

#[test]
fn diff_clause_inherits_slice_default_walk() {
    let pr = parse(
        r#"slice s {
                walk 1 { summary: "first" }
                walk 2 { summary: "second" }
                cell a { type: boolean mutable: true }
            }"#,
    );
    let r = diff(&pr.file, 1, 2).expect("ok");
    assert_eq!(r.added.len(), 1);
    assert_eq!(r.added[0].walk, 2);
}

#[test]
fn diff_changed_field_tracked() {
    let pr = parse(
        r#"slice s {
                walk 1 { summary: "first" }
                walk 2 { summary: "second" }
                cell a {
                    type: boolean
                    mutable: true
                    walk_added: 1
                    walk_changed: 2
                }
            }"#,
    );
    let r = diff(&pr.file, 1, 2).expect("ok");
    assert_eq!(r.changed.len(), 1);
    assert_eq!(r.changed[0].id, "a");
    assert_eq!(r.added.len(), 0);
}

// ---------------------------------------------------------------------------
// Suggest
// ---------------------------------------------------------------------------

fn suggest_str(src: &str) -> SuggestReport {
    suggest_from_source(src)
}

#[test]
fn parse_errors_are_surfaced() {
    let r = suggest_str("slice broken { cell foo { type: ");
    assert!(matches!(r.status, SuggestStatus::ParseErrors));
    assert!(r.gap.is_none());
}

#[test]
fn empty_slice_suggests_a_cell() {
    let r = suggest_str("slice s { }");
    assert!(matches!(r.status, SuggestStatus::Gap));
    let gap = r.gap.unwrap();
    assert!(matches!(gap.kind, GapKind::EmptySlice));
    assert!(gap.template.contains("cell"));
    assert!(gap.template.contains("type:"));
}

#[test]
fn missing_field_suggests_field_template() {
    let r = suggest_str("slice s { cell foo { type: boolean } }");
    let gap = r.gap.expect("gap");
    assert!(matches!(gap.kind, GapKind::MissingField));
    assert!(gap.template.contains("mutable:"));
}

#[test]
fn forbidden_state_without_body_suggests_predicate() {
    let r = suggest_str(
        r#"slice s {
                forbidden_state fs {
                    description: "x"
                    reachability: currently_reachable
                    kill_test: kt
                }
            }"#,
    );
    let gap = r.gap.expect("gap");
    assert!(matches!(gap.kind, GapKind::ForbiddenStateBody));
    assert!(gap.template.contains("predicate:"));
    assert!(matches!(gap.insert_after, InsertHint::InsideBlock { .. }));
}

#[test]
fn unresolved_kill_test_suggests_kill_test_block() {
    let r = suggest_str(
        r#"slice s {
                cell c { type: boolean mutable: true }
                forbidden_state fs {
                    description: "x"
                    predicate: "c == true"
                    reachability: currently_reachable
                    kill_test: kt_missing
                }
            }"#,
    );
    let gap = r.gap.expect("gap");
    assert!(matches!(gap.kind, GapKind::MissingKillTest));
    assert!(gap.template.contains("kill_test kt_missing"));
    assert!(gap.template.contains("forbidden: fs"));
}

#[test]
fn unresolved_forbidden_suggests_fs_block() {
    let r = suggest_str(
        r#"slice s {
                kill_test kt {
                    forbidden: fs_missing
                    kind: structural
                    assertion: "x"
                    status: declared
                }
            }"#,
    );
    let gap = r.gap.expect("gap");
    assert!(matches!(gap.kind, GapKind::MissingForbiddenState));
    assert!(gap.template.contains("forbidden_state fs_missing"));
}

#[test]
fn missing_post_failure_suggests_pre_post_rollback_for_db_transaction() {
    let r = suggest_str(
        r#"slice s {
                cell c { type: boolean mutable: true }
                event e {
                    mutates: [c]
                    atomicity: db_transaction
                    step s1 { op: "x" fallible: true mutates: [c] }
                    step s2 { op: "y" fallible: true mutates: [c] }
                }
            }"#,
    );
    let gap = r.gap.expect("gap");
    assert!(matches!(gap.kind, GapKind::MissingPostFailure));
    assert!(gap.template.contains("event: e"));
    assert!(gap.template.contains("step: s2"));
    assert!(gap.template.contains("cells_after_pre_rollback"));
    assert!(gap.template.contains("cells_after_rollback"));
}

#[test]
fn missing_post_failure_suggests_single_cells_after_for_non_transactional() {
    let r = suggest_str(
        r#"slice s {
                cell c { type: boolean mutable: true }
                event e {
                    mutates: [c]
                    step s1 { op: "x" fallible: true mutates: [c] }
                    step s2 { op: "y" fallible: true mutates: [c] }
                }
            }"#,
    );
    let gap = r.gap.expect("gap");
    assert!(matches!(gap.kind, GapKind::MissingPostFailure));
    assert!(gap.template.contains("cells_after"));
    assert!(!gap.template.contains("cells_after_pre_rollback"));
}

#[test]
fn walk_complete_returns_no_gap() {
    let r = suggest_from_source(fixture_source());
    assert!(matches!(r.status, SuggestStatus::WalkComplete));
    assert!(r.gap.is_none());
}

#[test]
fn suggest_is_deterministic() {
    let src = "slice s { cell foo { type: boolean } cell bar { } }";
    let a = suggest_str(src);
    let b = suggest_str(src);
    let (ga, gb) = (a.gap.expect("gap"), b.gap.expect("gap"));
    assert_eq!(ga.template, gb.template);
    assert_eq!(ga.message, gb.message);
}

#[test]
fn id_from_message_works() {
    let s = "forbidden_state `fs_archived_active` is missing a `predicate:` body";
    assert_eq!(id_from_message(s), Some("fs_archived_active".to_owned()));
}

#[test]
fn extract_quoted_after_works() {
    let s = "forbidden_state `fs` references unknown kill_test `kt_missing`";
    assert_eq!(extract_quoted_after(s, "unknown kill_test"), Some("kt_missing".to_owned()));
}

#[test]
fn parse_event_step_works() {
    let s = "missing post_failure for `event: e, step: s2`";
    assert_eq!(parse_event_step(s), Some(("e".to_owned(), "s2".to_owned())));
}

#[test]
fn message_helpers_return_none_without_markers() {
    assert_eq!(id_from_message("no quotes here"), None);
    assert_eq!(extract_quoted_after("abc", "unknown kill_test"), None);
    assert_eq!(parse_event_step("missing post_failure"), None);
}

// ---------------------------------------------------------------------------
// Working sets
// ---------------------------------------------------------------------------

fn keyed<'a>(m: &'a [(String, Vec<Diagnostic>)], path: &str) -> Option<&'a Vec<Diagnostic>> {
    m.iter().find(|(p, _)| Path::new(p) == Path::new(path)).map(|(_, d)| d)
}

fn composition_str(loader: &InMemoryLoader, root: &str) -> Vec<(String, Vec<Diagnostic>)> {
    let ws = load_with_imports(loader, root);
    composition::run(&ws)
}

fn resolve_str(loader: &InMemoryLoader, root: &str) -> Vec<(String, Vec<Diagnostic>)> {
    let ws = load_with_imports(loader, root);
    cross_slice::resolve(&ws)
}

#[test]
fn in_memory_loader_loads_single_file() {
    let loader = InMemoryLoader::new().with_file("/root/a.memspec", "slice a { cell x { type: boolean mutable: true } }");
    let ws = load_with_imports(&loader, "/root/a.memspec");
    assert_eq!(ws.files.len(), 1);
    assert_eq!(Path::new(&ws.files[0].path), Path::new("/root/a.memspec"));
    assert!(ws.files[0].diagnostics.is_empty());
    assert!(ws.files[0].file.slice.is_some());
}

#[test]
fn loader_follows_imports() {
    let loader = InMemoryLoader::new()
        .with_file(
            "/root/main.memspec",
            r#"slice main {
                    use "./other.memspec" as o
                    cell c { type: boolean mutable: true }
                }"#,
        )
        .with_file("/root/other.memspec", "slice other { cell d { type: boolean mutable: true } }");
    let ws = load_with_imports(&loader, "/root/main.memspec");
    assert_eq!(ws.files.len(), 2);
    let paths: Vec<_> = ws.files.iter().map(|f| std::path::PathBuf::from(&f.path)).collect();
    assert!(paths.contains(&std::path::PathBuf::from("/root/main.memspec")));
    assert!(paths.contains(&std::path::PathBuf::from("/root/other.memspec")));
}

#[test]
fn loader_detects_missing_import() {
    let loader = InMemoryLoader::new().with_file(
        "/root/main.memspec",
        r#"slice main {
                use "./missing.memspec" as m
            }"#,
    );
    let ws = load_with_imports(&loader, "/root/main.memspec");
    let main = ws.lookup("/root/main.memspec").unwrap();
    assert!(main.diagnostics.iter().any(|d| d.code == codes::E_LOADER_NOT_FOUND), "expected NOT_FOUND diagnostic");
}

#[test]
fn loader_detects_import_cycle() {
    let loader = InMemoryLoader::new()
        .with_file("/root/a.memspec", r#"slice a { use "./b.memspec" as b }"#)
        .with_file("/root/b.memspec", r#"slice b { use "./a.memspec" as a }"#);
    let ws = load_with_imports(&loader, "/root/a.memspec");
    let cycle_diag = ws.files.iter().flat_map(|f| f.diagnostics.iter()).find(|d| d.code == codes::E_LOADER_IMPORT_CYCLE);
    assert!(cycle_diag.is_some(), "expected import-cycle diagnostic");
}

#[test]
fn loader_handles_diamond_imports() {
    let loader = InMemoryLoader::new()
        .with_file("/root/a.memspec", r#"slice a { use "./b.memspec" as b use "./c.memspec" as c }"#)
        .with_file("/root/b.memspec", r#"slice b { use "./d.memspec" as d }"#)
        .with_file("/root/c.memspec", r#"slice c { use "./d.memspec" as d }"#)
        .with_file("/root/d.memspec", "slice d { cell x { type: boolean mutable: true } }");
    let ws = load_with_imports(&loader, "/root/a.memspec");
    assert_eq!(ws.files.len(), 4, "expected 4 unique files in diamond");
}

#[test]
fn loader_records_resolved_aliases() {
    let loader = InMemoryLoader::new()
        .with_file("/root/main.memspec", r#"slice main { use "./other.memspec" as o }"#)
        .with_file("/root/other.memspec", "slice other { cell d { type: boolean mutable: true } }");
    let ws = load_with_imports(&loader, "/root/main.memspec");
    let main = ws.root_file().expect("root loaded");
    let target = main.imports_resolved.iter().find(|(a, _)| a == "o").map(|(_, p)| p.clone()).expect("alias o");
    assert_eq!(Path::new(&target), Path::new("/root/other.memspec"));
}

#[test]
fn unused_import_warns() {
    let loader = InMemoryLoader::new()
        .with_file(
            "/root/main.memspec",
            r#"slice main {
                    use "./other.memspec" as o
                    cell c { type: boolean mutable: true }
                }"#,
        )
        .with_file("/root/other.memspec", "slice other { cell d { type: boolean mutable: true } }");
    let diags = composition_str(&loader, "/root/main.memspec");
    let main = keyed(&diags, "/root/main.memspec").expect("main diags");
    assert!(main.iter().any(|d| d.code == codes::W_COMP_UNUSED_IMPORT));
}

#[test]
fn used_import_no_warning() {
    let loader = InMemoryLoader::new()
        .with_file(
            "/root/main.memspec",
            r#"slice main {
                    use "./other.memspec" as o
                    derived d {
                        derives_from: [o.cell_a]
                        derivation: "..."
                    }
                }"#,
        )
        .with_file("/root/other.memspec", "slice other { cell cell_a { type: boolean mutable: true } }");
    let diags = composition_str(&loader, "/root/main.memspec");
    let main_diags = keyed(&diags, "/root/main.memspec").cloned().unwrap_or_default();
    assert!(!main_diags.iter().any(|d| d.code == codes::W_COMP_UNUSED_IMPORT));
}

#[test]
fn duplicate_target_warns() {
    let loader = InMemoryLoader::new()
        .with_file(
            "/root/main.memspec",
            r#"slice main {
                    use "./other.memspec" as o
                    use "./other.memspec" as o2
                    derived d {
                        derives_from: [o.cell_a, o2.cell_a]
                        derivation: "..."
                    }
                }"#,
        )
        .with_file("/root/other.memspec", "slice other { cell cell_a { type: boolean mutable: true } }");
    let diags = composition_str(&loader, "/root/main.memspec");
    let main = keyed(&diags, "/root/main.memspec").expect("main diags");
    assert!(main.iter().any(|d| d.code == codes::W_COMP_DUPLICATE_IMPORT_TARGET));
}

#[test]
fn imported_id_shadowed_by_local_warns() {
    let loader = InMemoryLoader::new()
        .with_file(
            "/root/main.memspec",
            r#"slice main {
                    use "./other.memspec" as o
                    cell shared { type: boolean mutable: true }
                    derived d {
                        derives_from: [o.shared, shared]
                        derivation: "..."
                    }
                }"#,
        )
        .with_file("/root/other.memspec", "slice other { cell shared { type: enum<a | b> mutable: true } }");
    let diags = composition_str(&loader, "/root/main.memspec");
    let main = keyed(&diags, "/root/main.memspec").expect("main diags");
    assert!(main.iter().any(|d| d.code == codes::W_COMP_IMPORTED_ID_SHADOWED));
}

#[test]
fn no_shadow_when_local_id_differs() {
    let loader = InMemoryLoader::new()
        .with_file(
            "/root/main.memspec",
            r#"slice main {
                    use "./other.memspec" as o
                    cell only_local { type: boolean mutable: true }
                    derived d {
                        derives_from: [o.shared, only_local]
                        derivation: "..."
                    }
                }"#,
        )
        .with_file("/root/other.memspec", "slice other { cell shared { type: boolean mutable: true } }");
    let diags = composition_str(&loader, "/root/main.memspec");
    let main_diags = keyed(&diags, "/root/main.memspec").cloned().unwrap_or_default();
    assert!(!main_diags.iter().any(|d| d.code == codes::W_COMP_IMPORTED_ID_SHADOWED));
}

#[test]
fn qualified_ref_resolves_when_imported() {
    let loader = InMemoryLoader::new()
        .with_file(
            "/root/main.memspec",
            r#"slice main {
                    use "./other.memspec" as o
                    derived d {
                        derives_from: [o.cell_a]
                        derivation: "..."
                    }
                }"#,
        )
        .with_file("/root/other.memspec", "slice other { cell cell_a { type: boolean mutable: true } }");
    let diags = resolve_str(&loader, "/root/main.memspec");
    assert!(diags.is_empty(), "expected clean resolution, got: {diags:#?}");
}

#[test]
fn qualified_ref_with_unknown_alias_emits_diagnostic() {
    let loader = InMemoryLoader::new().with_file(
        "/root/main.memspec",
        r#"slice main {
                derived d {
                    derives_from: [ghost.cell_a]
                    derivation: "..."
                }
            }"#,
    );
    let diags = resolve_str(&loader, "/root/main.memspec");
    let main_diags = keyed(&diags, "/root/main.memspec").expect("main diags");
    assert!(main_diags.iter().any(|d| d.code == codes::E_LOADER_UNRESOLVED_ALIAS));
}

#[test]
fn qualified_ref_with_unknown_id_emits_diagnostic() {
    let loader = InMemoryLoader::new()
        .with_file(
            "/root/main.memspec",
            r#"slice main {
                    use "./other.memspec" as o
                    derived d {
                        derives_from: [o.does_not_exist]
                        derivation: "..."
                    }
                }"#,
        )
        .with_file("/root/other.memspec", "slice other { cell cell_a { type: boolean mutable: true } }");
    let diags = resolve_str(&loader, "/root/main.memspec");
    let main_diags = keyed(&diags, "/root/main.memspec").expect("main diags");
    assert!(main_diags.iter().any(|d| d.code == codes::E_LOADER_QUALIFIED_REF_UNRESOLVED));
}

#[test]
fn qualified_ref_in_map_key_value_resolves() {
    let loader = InMemoryLoader::new()
        .with_file(
            "/root/main.memspec",
            r#"slice main {
                    use "./other.memspec" as o
                    forbidden_state fs {
                        description: "x"
                        cells: { local_c: true }
                        reachability: currently_reachable
                        kill_test: TODO
                    }
                    cell local_c { type: boolean mutable: true }
                }"#,
        )
        .with_file("/root/other.memspec", "slice other { cell cell_a { type: boolean mutable: true } }");
    let diags = resolve_str(&loader, "/root/main.memspec");
    assert!(diags.is_empty(), "no qualified refs to resolve here, got: {diags:#?}");
}

#[test]
fn working_set_analysis_suppresses_cross_referenced_unused_cell() {
    let loader = InMemoryLoader::new()
        .with_file(
            "/root/main.memspec",
            r#"slice main {
                    use "./other.memspec" as o
                    derived d {
                        derives_from: [o.cell_a]
                        derivation: "..."
                    }
                }"#,
        )
        .with_file("/root/other.memspec", "slice other { cell cell_a { type: boolean mutable: true } }");
    let ws = load_with_imports(&loader, "/root/main.memspec");
    let a = analyze_working_set(&ws);
    let other = a.by_file.iter().find(|(p, _)| Path::new(p) == Path::new("/root/other.memspec")).expect("other analysed");
    assert!(!other.1.iter().any(|d| d.code == codes::W_COH_UNUSED_CELL));
    assert!(!a.has_errors());
}

// ---------------------------------------------------------------------------
// Multi-slice working set over the lifecycle slice
// ---------------------------------------------------------------------------

fn rule_audit_source() -> &'static str {
    r#"slice rule_audit {
  use "./rule_lifecycle.memspec" as lc

  meta {
    title: "Rule audit composed over rule_lifecycle"
    memspec_version: "0.1"
  }

  walk 1 {
    summary: "audit trail over the lifecycle slice"
  }

  cell audit_entries {
    type: append_only_relation<audit_entry>
    mutable: true
  }

  derived audit_completeness {
    derives_from: [lc.rule_state, audit_entries]
    derivation: "every change to lc.rule_state is paired with a row in audit_entries"
  }
}
"#
}

fn multi_slice_loader() -> InMemoryLoader {
    InMemoryLoader::new()
        .with_file("tests/fixtures/multi_slice/rule_lifecycle.memspec", fixture_source())
        .with_file("tests/fixtures/multi_slice/rule_audit.memspec", rule_audit_source())
}

#[test]
fn multi_slice_fixture_walks_clean_via_filesystem() {
    let root = "tests/fixtures/multi_slice/rule_audit.memspec";
    let loader = multi_slice_loader();
    let ws = load_with_imports(&loader, root);

    assert_eq!(ws.files.len(), 2, "expected root + one imported file");

    let analysis = analyze_working_set(&ws);

    let errors: Vec<_> =
        analysis.by_file.iter().flat_map(|(_, d)| d.iter()).filter(|d| d.severity == Severity::Error).collect();
    assert!(errors.is_empty(), "expected zero errors across the working set; got: {errors:#?}");

    let audit_diags = analysis
        .by_file
        .iter()
        .find(|(p, _)| p.ends_with("rule_audit.memspec"))
        .map(|(_, d)| d)
        .expect("audit slice should be in analysis output");
    assert!(
        audit_diags.iter().all(|d| d.severity != Severity::Error),
        "rule_audit should walk clean of errors: {audit_diags:#?}"
    );
}

#[test]
fn missing_qualified_id_emits_diagnostic_via_fs_loader() {
    let bad_audit = r#"slice bad_audit {
  use "./rule_lifecycle.memspec" as lc
  meta { title: "bad" memspec_version: "0.1" }
  walk 1 { summary: "uses an id that doesn't exist" }
  cell c { type: boolean mutable: true }
  derived d {
    derives_from: [lc.does_not_exist]
    derivation: "..."
  }
}
"#;
    let loader = InMemoryLoader::new()
        .with_file("/tmp/memspec_test/rule_lifecycle.memspec", fixture_source())
        .with_file("/tmp/memspec_test/bad_audit.memspec", bad_audit);
    let ws = load_with_imports(&loader, "/tmp/memspec_test/bad_audit.memspec");
    let analysis = analyze_working_set(&ws);

    let any_unresolved =
        analysis.by_file.iter().flat_map(|(_, d)| d.iter()).any(|d| d.code == codes::E_LOADER_QUALIFIED_REF_UNRESOLVED);
    assert!(any_unresolved, "expected E0403 unresolved qualified ref");
}

#[test]
fn distinct_ids_give_no_duplicate_id_error() {
    let d = coherence_str("slice s { cell foo { type: boolean mutable: true } cell bar { type: boolean mutable: true } }");
    assert!(!d.iter().any(|d| d.code == codes::E_COH_DUPLICATE_ID), "{d:#?}");
}

#[test]
fn unresolved_cell_errors_name_exactly_the_unknown_refs() {
    let d = coherence_str(
        r#"slice s {
                cell a { type: boolean mutable: true }
                derived r { derives_from: [a] derivation: "a" }
                derived q { derives_from: [r, ghost] derivation: "r" }
                event e {
                    mutates: [a, r]
                    step s1 { op: "x" fallible: true mutates: [a] }
                    step s1 { op: "y" fallible: true mutates: [missing] }
                }
            }"#,
    );
    let mut msgs: Vec<String> = d
        .iter()
        .filter(|d| d.code == codes::E_COH_UNRESOLVED_CELL_REF)
        .map(|d| d.message.clone())
        .collect();
    msgs.sort();
    // `ghost` is unknown; `r` is a derived, allowed in derives_from but not in
    // an event's mutates; the second step `s1` is a repeat and not checked.
    assert_eq!(
        msgs,
        vec!["reference to unknown cell `ghost`".to_owned(), "reference to unknown cell `r`".to_owned()]
    );
}

#[test]
fn cells_redeclared_under_a_later_duplicate_do_not_resolve() {
    let d = coherence_str(
        r#"slice s {
                event x { mutates: [] step s1 { op: "x" fallible: true } }
                cell x { type: boolean mutable: true }
                forbidden_state f { cells: { x: true } }
            }"#,
    );
    assert!(d.iter().any(|d| d.code == codes::E_COH_DUPLICATE_ID));
    assert!(d.iter().any(|d| d.code == codes::E_COH_UNRESOLVED_CELL_REF && d.message == "reference to unknown cell `x`"));
}
