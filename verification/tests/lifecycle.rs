use otogo::cli::{batch_action, BatchAction};
use otogo::control::{err, LoopError};
use otogo::corpus::{next_round_number, pick_request, request_copy_name, stem};
use otogo::goal_loop::{default_config, initial_state, GoalLoop};
use otogo::guard::Verdict;
use otogo::json::{json_file_text, merge, Json};
use otogo::snapshot::read_snapshot;
use otogo::report::{gap_md, Say};
use otogo::round::{can_record_friction, is_escalation, is_layer, is_recordable, queue_entries};

const CONFIG: &str = r#"{"commands": {"drive": "run {request} into {out} as {phase}", "score": "score {round_dir} {phase}"},
  "budget": {"rounds_per_batch": 3, "attribution_warn_areas": 3}}"#;

fn message<T>(r: Result<T, LoopError>) -> String {
    match r {
        Ok(_) => panic!("expected an error"),
        Err(e) => e.message().to_string(),
    }
}

fn fresh() -> GoalLoop {
    match GoalLoop::load("/repo".to_string(), "/repo/goals/loop.json", CONFIG, None) {
        Ok(l) => l,
        Err(e) => panic!("{}", e.message()),
    }
}

fn open(l: &mut GoalLoop, n: u64) {
    assert!(l.check_open(false).is_ok());
    l.begin_round(n, "overdue-invoices", "goals/corpus/overdue-invoices.txt", "2024-05-01T10:00:00Z", "healthy", "green");
}

fn clean() -> Verdict {
    Verdict::new()
}

fn num(j: Option<&Json>) -> Option<u64> {
    j.and_then(|x| x.as_u64())
}

fn text<'a>(j: Option<&'a Json>) -> Option<&'a str> {
    j.and_then(|x| x.as_str())
}

fn history(l: &GoalLoop) -> &Vec<Json> {
    l.state.get("history").and_then(|h| h.as_array()).unwrap()
}

#[test]
fn unhealthy_world_scores_nothing_and_opens_no_round() {
    let mut l = fresh();
    l.begin_round(1, "overdue-invoices", "goals/corpus/overdue-invoices.txt", "t0", "unhealthy", "skipped");
    l.drop_unhealthy_round(1, "overdue-invoices", "t1");
    assert!(l.state.get("open_round").unwrap().is_null());
    let last = history(&l).last().unwrap();
    assert_eq!(text(last.get("outcome")), Some("no_score"));
    assert_eq!(text(last.get("layer")), Some("world"));
    assert_eq!(num(l.state.get("rounds_in_batch")), Some(0));
}

#[test]
fn a_healthy_world_opens_normally() {
    let mut l = fresh();
    open(&mut l, 1);
    let r = l.open_round().ok().unwrap();
    assert_eq!(text(r.get("request")), Some("overdue-invoices"));
    assert_eq!(text(r.get("phase")), Some("opened"));
    assert_eq!(num(r.get("n")), Some(1));
    assert!(r.get("gap").unwrap().is_null());
}

#[test]
fn a_second_round_cannot_open_over_the_first() {
    let mut l = fresh();
    open(&mut l, 7);
    assert_eq!(
        message(l.check_open(true)),
        "round 007 is still open. Close it with `otogo close --outcome ...` or `otogo abort`."
    );
}

#[test]
fn escalate_layers_stop_the_round() {
    assert!(is_escalation("world"));
    assert!(is_escalation("harness"));
    assert!(!is_escalation("domain"));
}

#[test]
fn product_layers_continue() {
    let mut l = fresh();
    open(&mut l, 1);
    assert_eq!(l.classify("domain", "no persistent effect").ok(), Some(1));
    let r = l.open_round().ok().unwrap();
    assert_eq!(text(r.get("layer")), Some("domain"));
    assert_eq!(text(r.get("gap")), Some("no persistent effect"));
    assert_eq!(text(r.get("phase")), Some("classified"));
    let md = gap_md("domain", "no persistent effect", "t");
    assert!(md.starts_with("# Gap\n\n- layer: `domain`\n- claim: no persistent effect\n- classified: t\n"));
}

#[test]
fn an_unknown_layer_is_refused() {
    let mut l = fresh();
    open(&mut l, 1);
    assert_eq!(
        message(l.classify("frontend", "x")),
        "unknown layer 'frontend'. One of: world, domain, contract, runtime, steering, surface, harness"
    );
    assert!(is_layer("surface"));
    assert!(!is_layer("Surface"));
}

#[test]
fn classifying_without_an_open_round_says_so() {
    let mut l = fresh();
    assert_eq!(message(l.classify("domain", "x")), "no open round. Run `otogo open <request-id>`.");
}

#[test]
fn a_round_cannot_close_over_an_authority_violation() {
    let mut l = fresh();
    open(&mut l, 1);
    let mut v = clean();
    v.violations.push("FROZEN modified: goals/corpus/overdue-invoices.txt".to_string());
    let m = message(l.close_round("improved", &v, false, "t"));
    assert!(m.contains("block the close"));
    assert!(l.open_round().is_ok());
}

#[test]
fn a_red_floor_blocks_the_close_unless_forced() {
    let mut l = fresh();
    open(&mut l, 1);
    assert!(l.set_round_field("floor_after", Json::Str("red".to_string())).is_ok());
    assert_eq!(
        message(l.close_round("improved", &clean(), false, "t")),
        "the floor is red. A round does not close over a regression."
    );
    assert!(l.close_round("regressed", &clean(), true, "t").is_ok());
}

#[test]
fn a_clean_round_closes_and_is_recorded() {
    let mut l = fresh();
    open(&mut l, 1);
    l.classify("domain", "no persistent effect").ok().unwrap();
    let mut v = clean();
    v.appended_measures.push("tests/test_rung.py (appended)".to_string());
    v.changed_free.push("src/app.py".to_string());
    let (round, used) = l.close_round("improved", &v, false, "2024-05-01T11:00:00Z").ok().unwrap();
    assert_eq!(used, 1);
    assert_eq!(text(round.get("outcome")), Some("improved"));
    assert_eq!(text(round.get("phase")), Some("classified"));
    assert_eq!(text(round.get("floor_before")), Some("green"));
    assert_eq!(num(round.get("files_changed")), Some(1));
    let entry = history(&l).last().unwrap();
    assert_eq!(text(entry.get("outcome")), Some("improved"));
    assert_eq!(text(entry.get("layer")), Some("domain"));
    assert_eq!(entry.get("rungs_added").and_then(|x| x.as_array()).map(|a| a.len()), Some(1));
    assert!(l.state.get("open_round").unwrap().is_null());
    assert_eq!(num(l.state.get("rounds_in_batch")), Some(1));
}

#[test]
fn an_aborted_round_keeps_its_evidence_but_does_not_count_as_progress() {
    let mut l = fresh();
    open(&mut l, 1);
    assert_eq!(l.abort_round("harness gap, not a product round", "t").ok(), Some(1));
    assert!(l.state.get("open_round").unwrap().is_null());
    assert_eq!(num(l.state.get("rounds_in_batch")), Some(0));
    let entry = history(&l).last().unwrap();
    assert_eq!(text(entry.get("outcome")), Some("aborted: harness gap, not a product round"));
}

#[test]
fn aborting_without_an_open_round_says_so() {
    let mut l = fresh();
    assert!(message(l.abort_round("nothing to abort", "t")).contains("no open round"));
}

fn spend_the_batch(l: &mut GoalLoop) {
    for n in 1..=3 {
        open(l, n);
        l.close_round("unchanged", &clean(), false, "t").ok().unwrap();
    }
}

#[test]
fn the_budget_stops_the_loop_for_a_person() {
    let mut l = fresh();
    spend_the_batch(&mut l);
    let m = message(l.check_open(false));
    assert!(m.starts_with("batch 1 is spent (3/3 rounds).\n"));
    assert!(l.check_open(true).is_ok());
}

#[test]
fn a_person_can_continue_the_queue() {
    let mut l = fresh();
    spend_the_batch(&mut l);
    assert_eq!(l.continue_batch(), 2);
    assert_eq!(num(l.state.get("rounds_in_batch")), Some(0));
    assert!(l.check_open(false).is_ok());
}

#[test]
fn a_person_can_redirect_the_next_batch() {
    let mut l = fresh();
    assert_eq!(l.redirect("close the read path; then the write path"), 2);
    let q: Vec<&str> = l.state.get("queue").and_then(|x| x.as_array()).unwrap().iter().map(|x| x.as_str().unwrap()).collect();
    assert_eq!(q, vec!["close the read path", "then the write path"]);
}

#[test]
fn a_redirect_drops_empty_entries() {
    assert_eq!(queue_entries(" a ;; ;b;"), vec!["a", "b"]);
    assert!(queue_entries("").is_empty());
}

#[test]
fn a_person_can_stop_the_loop() {
    let mut l = fresh();
    l.stop("operator", "t");
    let s = l.state.get("stopped").unwrap();
    assert_eq!(text(s.get("reason")), Some("operator"));
    assert_eq!(text(s.get("at")), Some("t"));
}

#[test]
fn the_batch_flags_decide_in_order() {
    assert!(matches!(batch_action(true, Some("q".into()), Some("why".into())), BatchAction::Stop(r) if r == "why"));
    assert!(matches!(batch_action(true, Some("q".into()), None), BatchAction::Redirect(q) if q == "q"));
    assert!(matches!(batch_action(true, None, None), BatchAction::Continue));
    assert!(matches!(batch_action(false, None, None), BatchAction::Report));
}

#[test]
fn first_occurrence_is_evidence_not_a_rule() {
    let mut l = fresh();
    assert_eq!(l.record_friction("the driver never records effects", "t"), 1);
}

#[test]
fn repeated_friction_earns_a_change() {
    let mut l = fresh();
    for _ in 0..2 {
        l.record_friction("the driver never records effects", "t");
    }
    assert_eq!(l.record_friction("  The Driver never records effects ", "t2"), 3);
    let report = l.status();
    assert!(report.iter().any(|s| matches!(s, Say::Warn(m) if m == "(3x) the driver never records effects")));
}

#[test]
fn status_names_the_next_step() {
    let mut l = fresh();
    open(&mut l, 4);
    let report = l.status();
    assert!(matches!(&report[2], Say::Head(m) if m == "Round 004 — `overdue-invoices` (opened)"));
    assert!(report.iter().any(|s| matches!(s, Say::Note(m) if m == "next: otogo drive")));
    assert!(report.iter().any(|s| matches!(s, Say::Warn(m) if m.starts_with("gap unclassified"))));
    assert!(report.iter().any(|s| matches!(s, Say::Head(m) if m == "Batch 1: 0/3 rounds")));
}

#[test]
fn the_brief_carries_the_authority_into_a_fresh_session() {
    let l = fresh();
    let b = l.authority_brief();
    assert!(b.contains("goals/corpus/**"));
    assert!(b.contains("append-only"));
    assert!(b.starts_with("===== authority =====\nfrozen  (the stone; never change): goals/corpus/**, "));
    assert!(b.contains("propose (a person decides):       —\n"));
}

#[test]
fn the_driver_receives_the_request_and_an_output_directory() {
    let l = fresh();
    let c = l.drive_command("/repo/goals/corpus/a.txt", "/repo/goals/rounds/001/drive", "/repo/goals/rounds/001", "drive").ok().unwrap();
    assert_eq!(c, "run /repo/goals/corpus/a.txt into /repo/goals/rounds/001/drive as drive");
    let s = l.score_command(true, "/r").ok().unwrap();
    assert_eq!(s, "score /r verify");
}

#[test]
fn drive_without_a_driver_configured_refuses() {
    let l = match GoalLoop::load("/repo".to_string(), "loop.json", "{}", None) {
        Ok(l) => l,
        Err(e) => panic!("{}", e.message()),
    };
    assert!(message(l.drive_command("a", "b", "c", "drive")).contains("same surface a user would"));
    assert_eq!(message(l.score_command(false, "r")), "no score command in goals/loop.json.");
}

#[test]
fn a_configuration_that_is_not_json_is_refused_naming_the_file() {
    let m = message(GoalLoop::load("/repo".to_string(), "/repo/goals/loop.json", "{ nope", None));
    assert!(m.starts_with("/repo/goals/loop.json: "));
}

#[test]
fn a_partial_configuration_inherits_the_defaults() {
    let l = fresh();
    assert_eq!(l.budget(), 3);
    assert_eq!(l.timeout_for("drive"), Some(1800));
    assert_eq!(l.cmd("health"), "");
    assert_eq!(l.cmd("drive"), "run {request} into {out} as {phase}");
    assert_eq!(l.frozen().sources(), vec!["goals/corpus/**", "goals/rubric.md", "goals/score/**", "goals/loop.json", "fixtures/**"]);
    let merged = merge(&default_config(), &Json::Object(vec![]));
    assert_eq!(merged.get("version").and_then(|v| v.as_u64()), Some(1));
}

#[test]
fn zero_means_no_limit() {
    let l = match GoalLoop::load("/r".to_string(), "c", r#"{"timeouts": {"default": 0, "floor": 5}}"#, None) {
        Ok(l) => l,
        Err(e) => panic!("{}", e.message()),
    };
    assert_eq!(l.timeout_for("drive"), None);
    assert_eq!(l.timeout_for("floor"), Some(5));
}

#[test]
fn a_missing_or_broken_state_starts_fresh() {
    let l = match GoalLoop::load("/r".to_string(), "c", "{}", Some("not json")) {
        Ok(l) => l,
        Err(e) => panic!("{}", e.message()),
    };
    assert_eq!(num(l.state.get("batch")), Some(1));
    assert!(is_recordable(&l.state));
    assert!(is_recordable(&initial_state()));
}

#[test]
fn paths_hang_off_the_root() {
    let l = fresh();
    assert_eq!(l.goals(), "/repo/goals");
    assert_eq!(l.round_dir(12), "/repo/goals/rounds/012");
    assert_eq!(l.state_path(), "/repo/goals/STATE.json");
    assert_eq!(l.corpus(), "/repo/goals/corpus");
}

#[test]
fn the_next_round_follows_the_highest() {
    let names: Vec<String> = vec!["001".into(), "_preflight".into(), "010".into(), "+3".into()];
    assert_eq!(next_round_number(&names), Some(11));
    assert_eq!(next_round_number(&vec![]), Some(1));
    assert_eq!(next_round_number(&vec![u64::MAX.to_string()]), None);
}

#[test]
fn a_request_is_found_by_its_prefix() {
    let names: Vec<String> = vec!["README.md".into(), "overdue-invoices.txt".into(), "b.md".into(), "a.txt".into()];
    assert_eq!(pick_request(&names, "overdue").ok(), Some("overdue-invoices.txt".to_string()));
    assert_eq!(pick_request(&names, "").ok(), Some("a.txt".to_string()));
    assert_eq!(
        pick_request(&names, "zzz").err(),
        Some("no corpus request matching 'zzz'. Available: a, b, overdue-invoices".to_string())
    );
    assert_eq!(
        pick_request(&vec!["README.md".to_string()], "x").err(),
        Some("no corpus request matching 'x'. Available: (none)".to_string())
    );
    assert_eq!(stem("archive.tar.gz"), "archive.tar");
    assert_eq!(stem(".hidden"), ".hidden");
    assert_eq!(request_copy_name("q.md"), "request.md");
    assert_eq!(request_copy_name("q"), "request.txt");
}

#[test]
fn an_error_carries_its_message() {
    let r: Result<(), LoopError> = err("boom".to_string());
    assert_eq!(message(r), "boom");
}

#[test]
fn the_state_mirror_reads_like_the_state() {
    let mut l = fresh();
    open(&mut l, 2);
    l.record_friction("slow fixture", "t");
    let md = l.state_md("2024-05-01T10:00:00Z");
    let lines: Vec<&str> = md.split('\n').collect();
    assert_eq!(lines[0], "# STATE");
    assert_eq!(lines[2], "_Generated by otogo at 2024-05-01T10:00:00Z. Machine copy: goals/STATE.json._");
    assert_eq!(lines[4], "## Open round 002 — request `overdue-invoices`");
    assert!(md.contains("- gap: _unclassified_\n"));
    assert!(md.contains("- evidence: `goals/rounds/002/`\n"));
    assert!(md.contains("## Batch 1\n- rounds used: 0 / 3\n"));
    assert!(md.contains("## Queue\n_empty_\n"));
    assert!(md.contains("_none yet_"));
    assert!(md.contains("- (1x) slow fixture"));
}

#[test]
fn a_null_state_takes_members_as_an_object() {
    let mut l = fresh();
    l.state = Json::Null;
    assert!(can_record_friction(&l.state, "first friction"));
    assert_eq!(l.record_friction("first friction", "t"), 1);
    assert!(matches!(l.state, Json::Object(_)));

    let mut l = fresh();
    l.state = Json::Null;
    assert_eq!(l.continue_batch(), 2);
    assert_eq!(num(l.state.get("batch")), Some(2));
    assert_eq!(num(l.state.get("rounds_in_batch")), Some(0));

    let mut l = fresh();
    l.state = Json::Array(Vec::new());
    assert!(!can_record_friction(&l.state, "first friction"));
}

#[test]
fn a_snapshot_that_cannot_be_read_or_parsed_is_refused() {
    let m = message(read_snapshot("/repo/goals/rounds/001/snapshot.json", None));
    assert_eq!(m, "/repo/goals/rounds/001/snapshot.json missing — was the round opened?");
    let m = message(read_snapshot("/repo/goals/rounds/001/snapshot.json", Some("{ nope")));
    let expected = serde_json::from_str::<serde_json::Value>("{ nope").unwrap_err().to_string();
    assert_eq!(m, expected);
    let m = message(GoalLoop::load("/repo".to_string(), "/repo/goals/loop.json", "{ nope", None));
    assert_eq!(m, format!("/repo/goals/loop.json: {expected}"));
}

#[test]
fn a_written_json_file_reads_back() {
    let snap = Json::Object(vec![
        ("hashes".to_string(), Json::Object(vec![("src/a.rs".to_string(), Json::Str("ab12".to_string()))])),
        ("measure_files".to_string(), Json::Array(vec![Json::Str("tests/a.rs".to_string())])),
        ("config".to_string(), Json::Object(vec![("authority".to_string(), Json::Null)])),
    ]);
    let text = json_file_text(&snap);
    assert!(text.ends_with("}\n"));
    let back = match read_snapshot("snapshot.json", Some(&text)) {
        Ok(j) => j,
        Err(e) => panic!("{}", e.message()),
    };
    assert_eq!(back.get("hashes").and_then(|h| h.get("src/a.rs")).and_then(|x| x.as_str()), Some("ab12"));
    assert_eq!(back.get("measure_files").and_then(|x| x.as_array()).map(|a| a.len()), Some(1));
    assert!(matches!(back.get("config").and_then(|c| c.get("authority")), Some(Json::Null)));
}
