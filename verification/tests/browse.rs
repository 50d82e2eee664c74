use memspec_parser::analysis::analyze_working_set;
use memspec_parser::analysis::loader::{load_with_imports, InMemoryLoader};
use memspec_parser::ast::FieldValue;
use memspec_parser::browse::blocks::{block_lines, kv_line, section_line};
use memspec_parser::browse::detail::{detail_for_diag, detail_for_slice, detail_for_slot, file_at, graph_for_slot};
use memspec_parser::browse::edges::collect_outbound;
use memspec_parser::browse::keys::{after_reload, handle_key, Action, Key, KeyPress, Pane, PaneLens, Selection};
use memspec_parser::browse::panels::{
    detail_title, diag_list_line, diagnostics_title, slice_list_label, slot_list_label, status_line,
};
use memspec_parser::browse::rows::{
    arrange_siblings, char_line_col, count_diagnostics, count_slots, diag_rows, has_memspec_extension,
    initial_selection, severity_rank, sort_rows, DiagRow,
};
use memspec_parser::browse::slots::{icon_for_kind, kind_pretty, slot_rows, SlotTarget};
use memspec_parser::browse::styled::{should_go_multiline, value_inline_len, value_segments, Segment, Tone};
use memspec_parser::parser::parse;
use memspec_parser::Severity;

fn fixture_source() -> &'static str {
    r#"// Rule lifecycle: publishing and archiving a rule, with its changelog.
slice rule_lifecycle_minimal {
  meta {
    title: "Rule lifecycle (minimal)"
    memspec_version: "0.1"
  }

  walk 1 {
    summary: "initial walk of Rule#promote! and Rule#deprecate!"
  }

  cell rule_state {
    type: enum<draft | published | archived>
    mutable: true
    default: draft
    ref: "rule.rb:14"
  }

  cell rule_active {
    type: boolean
    mutable: true
    default: false
  }

  cell rule_changelogs {
    type: append_only_relation<rule_changelog>
    mutable: true
  }

  derived rule_is_live {
    derives_from: [rule_state, rule_active]
    derivation: "rule_state == published AND rule_active == true"
    materialised: false
  }

  association no_archived_active {
    invariant: "NOT (rule_state == archived AND rule_active == true)"
    over: [rule_state, rule_active]
    enforced_by: convention
  }

  event promote {
    trigger: "Rule#promote! called by approver"
    mutates: [rule_state, rule_active, rule_changelogs]
    atomicity: db_transaction

    step s1_update {
      op: "rule.update!(state: :published, active: true)"
      fallible: true
      mutates: [rule_state, rule_active]
    }

    step s2_changelog {
      op: "RuleChangelog.create!(...)"
      fallible: true
      mutates: [rule_changelogs]
      precondition: "s1_update succeeded"
    }
  }

  event deprecate {
    trigger: "Rule#deprecate! called by approver"
    mutates: [rule_state, rule_active, rule_changelogs]
    atomicity: db_transaction

    step s1_update {
      op: "rule.update!(state: :archived, active: false)"
      fallible: true
      mutates: [rule_state, rule_active]
    }

    step s2_changelog {
      op: "RuleChangelog.create!(...)"
      fallible: true
      mutates: [rule_changelogs]
    }
  }

  post_failure pf_promote_changelog_fail {
    event: promote
    step: s2_changelog
    outcome: "Err(ActiveRecord::RecordInvalid)"
    cells_after_pre_rollback {
      rule_state: published
      rule_active: true
      rule_changelogs: unchanged
    }
    cells_after_rollback {
      rule_state: unchanged
      rule_active: unchanged
      rule_changelogs: unchanged
    }
    result: rejected
  }

  post_failure pf_deprecate_changelog_fail {
    event: deprecate
    step: s2_changelog
    outcome: "Err(ActiveRecord::RecordInvalid)"
    cells_after_pre_rollback {
      rule_state: archived
      rule_active: false
      rule_changelogs: unchanged
    }
    cells_after_rollback {
      rule_state: unchanged
      rule_active: unchanged
      rule_changelogs: unchanged
    }
    result: rejected
  }

  forbidden_state fs_archived_active {
    description: "An archived rule that still claims active=true is logically broken."
    predicate: "rule_state == archived AND rule_active == true"
    reachability: currently_reachable
    kill_test: kt_archived_active
  }

  kill_test kt_archived_active {
    forbidden: fs_archived_active
    kind: structural
    assertion: "No code path produces (rule_state=archived, rule_active=true)."
    ref: "test/models/rule_test.rb:202-214"
    status: declared
  }
}
"#
}

fn texts(l: &[Segment]) -> Vec<(String, Tone)> {
    l.iter().map(|s| (s.text.clone(), s.tone)).collect()
}

fn joined(l: &[Segment]) -> String {
    l.iter().map(|s| s.text.as_str()).collect::<Vec<_>>().join("")
}

fn sel(focused: Pane) -> Selection {
    Selection { focused, slices: None, slots: None, diagnostics: None }
}

fn key(c: char) -> KeyPress {
    KeyPress { key: Key::Char(c), ctrl: false }
}

const LENS: PaneLens = PaneLens { slices: 3, slots: 5, diagnostics: 0 };

#[test]
fn keys_quit_on_q_esc_and_ctrl_c() {
    let mut s = sel(Pane::Slots);
    assert_eq!(handle_key(&mut s, key('q'), LENS), Action::Quit);
    assert_eq!(handle_key(&mut s, KeyPress { key: Key::Esc, ctrl: false }, LENS), Action::Quit);
    assert_eq!(handle_key(&mut s, KeyPress { key: Key::Char('c'), ctrl: true }, LENS), Action::Quit);
    assert_eq!(handle_key(&mut s, key('c'), LENS), Action::Continue);
}

#[test]
fn keys_focus_and_cycle() {
    let mut s = sel(Pane::Slices);
    handle_key(&mut s, key('3'), LENS);
    assert_eq!(s.focused, Pane::Diagnostics);
    handle_key(&mut s, KeyPress { key: Key::Tab, ctrl: false }, LENS);
    assert_eq!(s.focused, Pane::Slices);
    handle_key(&mut s, KeyPress { key: Key::BackTab, ctrl: false }, LENS);
    assert_eq!(s.focused, Pane::Diagnostics);
    handle_key(&mut s, key('2'), LENS);
    assert_eq!(s.focused, Pane::Slots);
}

#[test]
fn keys_move_within_pane_and_clamp() {
    let mut s = sel(Pane::Slots);
    assert_eq!(handle_key(&mut s, key('j'), LENS), Action::Continue);
    assert_eq!(s.slots, Some(0));
    handle_key(&mut s, key('j'), LENS);
    handle_key(&mut s, KeyPress { key: Key::Down, ctrl: false }, LENS);
    assert_eq!(s.slots, Some(2));
    handle_key(&mut s, key('G'), LENS);
    assert_eq!(s.slots, Some(4));
    handle_key(&mut s, key('j'), LENS);
    assert_eq!(s.slots, Some(4));
    handle_key(&mut s, KeyPress { key: Key::Home, ctrl: false }, LENS);
    assert_eq!(s.slots, Some(0));
    handle_key(&mut s, key('k'), LENS);
    assert_eq!(s.slots, Some(0));
    assert_eq!(s.slices, None);
}

#[test]
fn keys_in_empty_pane_do_nothing() {
    let mut s = sel(Pane::Diagnostics);
    assert_eq!(handle_key(&mut s, key('j'), LENS), Action::Continue);
    assert_eq!(s.diagnostics, None);
}

#[test]
fn keys_in_slices_pane_switch_root_and_r_reloads() {
    let mut s = sel(Pane::Slices);
    s.slices = Some(0);
    assert_eq!(handle_key(&mut s, key('j'), LENS), Action::SwitchRoot(1));
    assert_eq!(s.slices, Some(1));
    assert_eq!(handle_key(&mut s, key('r'), LENS), Action::Reload);
    after_reload(&mut s, 7, 0);
    assert_eq!(s.slots, Some(0));
    assert_eq!(s.diagnostics, None);
}

#[test]
fn slot_tree_of_fixture() {
    let pr = parse(fixture_source());
    let slice = pr.file.slice.as_ref().expect("slice");
    let rows = slot_rows(slice);
    let labels: Vec<(usize, String)> = rows.iter().map(|r| (r.indent, r.label.clone())).collect();
    assert_eq!(labels[0], (0, "▼ Cells (3)".to_owned()));
    assert_eq!(labels[1], (1, "· rule_state".to_owned()));
    assert!(labels.contains(&(0, "▼ Deriveds (1)".to_owned())));
    assert!(labels.contains(&(0, "▼ Events (2)".to_owned())));
    assert!(labels.contains(&(1, "⚡ promote".to_owned())));
    assert!(labels.contains(&(2, "  ↳ step s1_update".to_owned())));
    assert!(labels.contains(&(0, "▼ Post-failures (2)".to_owned())));
    assert!(labels.contains(&(0, "▼ Forbidden states (1)".to_owned())));
    assert!(labels.contains(&(0, "▼ Kill-tests (1)".to_owned())));
    let step = rows.iter().find(|r| r.label == "  ↳ step s2_changelog").expect("step row");
    match &step.target {
        Some(SlotTarget::Step { event, step }) => {
            assert_eq!(event, "promote");
            assert_eq!(step, "s2_changelog");
        }
        _ => panic!("expected a step target"),
    }
    assert_eq!(slot_list_label(&rows[1]), "  · rule_state");
    assert_eq!(kind_pretty("walk"), "Other");
    assert_eq!(icon_for_kind("kill_test"), "🎯");
}

#[test]
fn slot_counts_of_fixture() {
    let pr = parse(fixture_source());
    let counts = count_slots(pr.file.slice.as_ref().unwrap());
    assert_eq!(
        counts,
        vec![
            ("cell", 3),
            ("derived", 1),
            ("association", 1),
            ("event", 2),
            ("post_failure", 2),
            ("forbidden_state", 1),
            ("kill_test", 1),
            ("walk", 1)
        ]
    );
}

#[test]
fn line_col_counts_characters() {
    assert_eq!(char_line_col("ab\ncd", 0), (1, 1));
    assert_eq!(char_line_col("ab\ncd", 4), (2, 2));
    assert_eq!(char_line_col("é\nx", 2), (1, 2));
    assert_eq!(char_line_col("ab", 99), (1, 3));
}

fn row(sev: Severity, file: &str, line: u32, msg: &str) -> DiagRow {
    DiagRow { severity: sev, code: "memspec/E0000".into(), message: msg.into(), file: file.into(), line, col: 1 }
}

#[test]
fn diagnostic_rows_sort_errors_first_then_file_then_line() {
    let rows = vec![
        row(Severity::Info, "/a", 1, "i"),
        row(Severity::Error, "/b", 2, "e2"),
        row(Severity::Warning, "/a", 3, "w"),
        row(Severity::Error, "/a", 9, "e1"),
        row(Severity::Error, "/b", 2, "e3"),
    ];
    let sorted = sort_rows(rows);
    let msgs: Vec<&str> = sorted.iter().map(|r| r.message.as_str()).collect();
    assert_eq!(msgs, vec!["e1", "e2", "e3", "w", "i"]);
    assert_eq!(severity_rank(Severity::Warning), 1);
}

#[test]
fn diagnostic_rows_of_a_working_set() {
    let loader = InMemoryLoader::new().with_file("/r/a.memspec", "slice a {\n  cell x { type: boolean mutable: true }\n}\n");
    let ws = load_with_imports(&loader, "/r/a.memspec");
    let analysis = analyze_working_set(&ws);
    let sources: Vec<Option<String>> = analysis.by_file.iter().map(|_| Some(ws.files[0].source.clone())).collect();
    let rows = diag_rows(&analysis, &sources, &None, "/r/a.memspec");
    assert!(!rows.is_empty());
    assert_eq!(rows[0].file, "/r/a.memspec");
    assert!(rows.iter().any(|r| (r.line, r.col) == (2, 8)), "{rows:?}");
    for w in rows.windows(2) {
        assert!(severity_rank(w[0].severity) <= severity_rank(w[1].severity));
    }
    let (e, w, i) = count_diagnostics(&analysis);
    assert_eq!(e + w + i, rows.len());
    let with_load = diag_rows(&analysis, &sources, &Some("boom".to_owned()), "/r/a.memspec");
    assert_eq!(with_load[0].code, "memspec/loader");
    assert_eq!(with_load.len(), rows.len() + 1);
    assert_eq!(texts(&diag_list_line(&with_load[0]))[0], ("✗ ".to_owned(), Tone::Error));
}

#[test]
fn siblings_are_sorted_and_include_the_invoked_file() {
    let found = vec!["/d/b.memspec".to_owned(), "/d/a.memspec".to_owned()];
    let s = arrange_siblings("/d/z.txt", false, &found);
    assert_eq!(s.discovered, vec!["/d/z.txt", "/d/a.memspec", "/d/b.memspec"]);
    assert_eq!(s.active_root, "/d/z.txt");
    let d = arrange_siblings("/d", true, &found);
    assert_eq!(d.discovered, vec!["/d/a.memspec", "/d/b.memspec"]);
    assert_eq!(d.active_root, "/d/a.memspec");
    let empty = arrange_siblings("/e", true, &Vec::new());
    assert_eq!(empty.active_root, "/e");
    assert!(has_memspec_extension("/d/a.memspec"));
    assert!(!has_memspec_extension("/d/a.md"));
    let s0 = initial_selection(&s.discovered, "/d/a.memspec");
    assert_eq!(s0.slices, Some(1));
    assert_eq!(s0.focused, Pane::Slices);
    assert_eq!(initial_selection(&Vec::new(), "/x").slices, None);
}

#[test]
fn value_segments_and_widths() {
    let pr = parse("slice s { cell c { type: enum<a | b> over: [x, lc.y] m: { k: 1 } s: \"hi\" } }");
    let slice = pr.file.slice.unwrap();
    let b = match &slice.items[0] {
        memspec_parser::ast::BlockItem::Block(b) => b,
        _ => panic!(),
    };
    let field = |k: &str| -> &FieldValue {
        b.items
            .iter()
            .find_map(|i| match i {
                memspec_parser::ast::BlockItem::Field(f) if f.key.name == k => Some(&f.value),
                _ => None,
            })
            .unwrap()
    };
    assert_eq!(
        texts(&value_segments(field("type"))),
        vec![
            ("enum".to_owned(), Tone::TypeHead),
            ("<".to_owned(), Tone::Raw),
            ("a".to_owned(), Tone::Ident),
            (" | ".to_owned(), Tone::Raw),
            ("b".to_owned(), Tone::Ident),
            (">".to_owned(), Tone::Raw)
        ]
    );
    assert_eq!(joined(&value_segments(field("over"))), "[x, lc.y]");
    assert_eq!(joined(&value_segments(field("m"))), "{ k: 1 }");
    assert_eq!(value_inline_len(field("type")), 4 + 2 + 1 + 1 + 3);
    assert_eq!(value_inline_len(field("over")), 2 + 1 + 4 + 2);
    assert_eq!(value_inline_len(field("m")), 4 + 1 + 2 + 1);
    assert_eq!(value_inline_len(field("s")), 4);
    assert!(!should_go_multiline(field("over"), 9));
    assert!(should_go_multiline(field("over"), 51));
    assert!(!should_go_multiline(field("type"), 500));
    let out = collect_outbound(b);
    assert!(out.contains(&("over".to_owned(), "x".to_owned())));
    assert!(out.contains(&("over".to_owned(), "lc.y".to_owned())));
    assert!(out.contains(&("m.<key>".to_owned(), "k".to_owned())));
}

#[test]
fn block_lines_align_keys_and_nest_blocks() {
    let pr = parse(fixture_source());
    let slice = pr.file.slice.as_ref().unwrap();
    let ev = slice
        .items
        .iter()
        .find_map(|i| match i {
            memspec_parser::ast::BlockItem::Block(b) if b.kind.name == "event" => Some(b),
            _ => None,
        })
        .unwrap();
    let lines = block_lines(ev);
    assert_eq!(texts(&lines[0]), vec![("── event promote ──".to_owned(), Tone::Heading)]);
    assert_eq!(joined(&lines[1]), "  trigger    \"Rule#promote! called by approver\"");
    assert_eq!(texts(&lines[1])[1], ("trigger".to_owned(), Tone::Key));
    assert!(lines.iter().any(|l| joined(l) == "  ▸ step s1_update"));
    assert!(lines.iter().any(|l| joined(l) == "    fallible  true"));
    assert_eq!(texts(&section_line("x")), vec![("── x ──".to_owned(), Tone::Heading)]);
    assert_eq!(joined(&kv_line("name", "v")), "  name          v");
}

#[test]
fn detail_panels_of_fixture() {
    let loader = InMemoryLoader::new().with_file("/f/rule.memspec", fixture_source());
    let ws = load_with_imports(&loader, "/f/rule.memspec");
    let lf = file_at(&ws, "/f/./rule.memspec").expect("file");
    let d = detail_for_slice(Some(lf));
    assert_eq!(joined(&d[0]), "── slice ──");
    assert_eq!(joined(&d[1]), "  name          rule_lifecycle_minimal");
    assert!(d.iter().any(|l| joined(l) == "  cell          3"));
    assert_eq!(joined(&detail_for_slice(None)[0]), "(no slice selected)");

    let slice = lf.file.slice.as_ref().unwrap();
    let rows = slot_rows(slice);
    let idx = rows.iter().position(|r| r.label == "  ↳ step s2_changelog").unwrap();
    let step = detail_for_slot(Some(idx), &rows, Some(slice));
    assert_eq!(joined(&step[0]), "── event promote → step s2_changelog ──");
    assert_eq!(joined(&detail_for_slot(None, &rows, Some(slice))[0]), "(no slot selected)");
    assert_eq!(joined(&detail_for_slot(Some(0), &rows, Some(slice))[0]), "▼ Cells (3)");

    let cell = rows.iter().position(|r| r.label == "· rule_state").unwrap();
    let g = graph_for_slot(Some(cell), &rows, Some(lf));
    assert_eq!(texts(&g[0])[0], ("rule_state".to_owned(), Tone::NodeId));
    assert_eq!(joined(&g[0]), "rule_state  (cell)");
    assert_eq!(joined(&g[2]), "  outgoing →");
    assert_eq!(joined(&g[3]), "    · via type → draft");
    assert!(g.iter().any(|l| joined(l) == "    · via default → draft"));
    assert!(g.iter().any(|l| joined(l) == "  ← incoming"));
    assert!(g.iter().any(|l| joined(l).starts_with("    · derived/rule_is_live")));

    let analysis = analyze_working_set(&ws);
    let diag_rows_v = vec![DiagRow {
        severity: Severity::Warning,
        code: "memspec/W0001".into(),
        message: "m".into(),
        file: "/f/rule.memspec".into(),
        line: 3,
        col: 4,
    }];
    let dd = detail_for_diag(Some(0), &diag_rows_v, Some(&analysis));
    assert_eq!(joined(&dd[0]), "── warning memspec/W0001 ──");
    assert_eq!(joined(&dd[1]), "  location      /f/rule.memspec:3:4");
    assert_eq!(joined(&dd[3]), "m");
    assert_eq!(joined(&detail_for_diag(Some(5), &diag_rows_v, None)[0]), "(no diagnostic selected)");
}

#[test]
fn list_labels_titles_and_status() {
    let loader = InMemoryLoader::new().with_file("/f/rule.memspec", fixture_source());
    let ws = load_with_imports(&loader, "/f/rule.memspec");
    assert_eq!(slice_list_label("/f/rule.memspec", "/f/rule.memspec", Some(&ws)), "  ◉ rule_lifecycle_minimal");
    assert_eq!(slice_list_label("/f/other.memspec", "/f/rule.memspec", Some(&ws)), "    other");
    assert_eq!(slice_list_label("/f/other.memspec", "/f/rule.memspec", None), "    other");
    assert_eq!(diagnostics_title(4), "[3] Diagnostics (4)");
    assert_eq!(detail_title(Pane::Slots), "Detail (slot)");
    let st = status_line(0, 2, 1);
    assert_eq!(texts(&st)[0], ("walk-complete (with warnings)".to_owned(), Tone::Warning));
    assert_eq!(joined(&st), "walk-complete (with warnings)  │  0E 2W 1I  │  1/2/3 focus  Tab cycle  j/k move  r reload  q quit");
    assert_eq!(texts(&status_line(0, 0, 0))[0].1, Tone::Complete);
}
