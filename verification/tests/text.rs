use otogo::control::{format_utc, hex_lower, is_bookkeeping, now, round_name, sha256_hex, skips_dir, tail, tail_cut_allowed, truncate, walk_keeps};
use otogo::report::{brief_section, classify_exit, code_text, drive_exit, floor_exit, refusal_exit, verify_exit, world_exit, floor_verdict, killed_note, last_lines, next_step, run_log, timed_out_message, trim_end, world_verdict};
use otogo::round::{replace_all, subst};
use otogo::snapshot::{git_listing, walk_repo};

#[test]
fn utc_stamps_follow_the_calendar() {
    assert_eq!(format_utc(0), "1970-01-01T00:00:00Z");
    assert_eq!(format_utc(86399), "1970-01-01T23:59:59Z");
    assert_eq!(format_utc(951782400), "2000-02-29T00:00:00Z");
    assert_eq!(format_utc(1709251199), "2024-02-29T23:59:59Z");
    assert_eq!(format_utc(4102444800), "2100-01-01T00:00:00Z");
}

#[test]
fn now_is_a_utc_stamp() {
    let t = now();
    assert_eq!(t.len(), 20);
    assert!(t.ends_with('Z'));
    assert_eq!(&t[4..5], "-");
    assert_eq!(&t[10..11], "T");
}

#[test]
fn digests_are_lowercase_hex_sha256() {
    assert_eq!(sha256_hex(b"abc"), "ba7816bf8f01cfea414140de5dae2223b00361a396177a9cb410ff61f20015ad");
    assert_eq!(sha256_hex(b""), "e3b0c44298fc1c149afbf4c8996fb92427ae41e4649b934ca495991b7852b855");
    assert_eq!(hex_lower(&[0x00, 0x0f, 0xa0, 0xff]), "000fa0ff");
}

#[test]
fn subst_fills_every_placeholder_in_order() {
    assert_eq!(subst("a {x} b {x} {y}", &[("x", "1"), ("y", "2")]), "a 1 b 1 2");
    assert_eq!(subst("{out}/{out_dir}", &[("out", "O"), ("out_dir", "D")]), "O/D");
    assert_eq!(subst("no placeholders", &[("x", "1")]), "no placeholders");
    assert_eq!(subst("{a}", &[("a", "{b}"), ("b", "c")]), "c");
}

#[test]
fn replace_scans_left_to_right_without_overlap() {
    assert_eq!(replace_all("aaa", "aa", "b"), "ba");
    assert_eq!(replace_all("xyz", "q", "r"), "xyz");
}

#[test]
fn truncate_and_tail_count_characters() {
    assert_eq!(truncate("héllo", 2), "hé");
    assert_eq!(truncate("hi", 60), "hi");
    assert_eq!(tail("abcdef", 2), "ef");
    assert_eq!(tail("ab", 20000), "ab");
}

#[test]
fn tail_counts_bytes_and_cuts_only_at_characters() {
    assert_eq!(tail("aé", 2), "é");
    assert!(tail_cut_allowed("aé", 2));
    assert!(!tail_cut_allowed("é", 1));
    assert!(tail_cut_allowed("é", 5));
}

#[test]
fn round_directories_are_three_digits() {
    assert_eq!(round_name(7), "007");
    assert_eq!(round_name(1234), "1234");
}

#[test]
fn bookkeeping_and_evidence_are_never_guarded() {
    assert!(is_bookkeeping("goals/STATE.json"));
    assert!(is_bookkeeping("goals/proposals.md"));
    assert!(!is_bookkeeping("goals/goal.md"));
    assert!(!walk_keeps("goals/rounds/001/drive.json"));
    assert!(!walk_keeps("goals/STATE.md"));
    assert!(walk_keeps("goals/loop.json"));
}

#[test]
fn the_walk_skips_build_directories_only_without_git() {
    assert!(skips_dir(".git", true));
    assert!(skips_dir("node_modules", false));
    assert!(!skips_dir("node_modules", true));
    assert!(!skips_dir("src", false));
}

#[test]
fn walked_files_come_back_in_path_order() {
    let found: Vec<String> = vec!["src/b.py".into(), "goals/STATE.json".into(), "a.txt".into(), "goals/rounds/001/x".into(), "src/a.py".into()];
    assert_eq!(walk_repo(&found), vec!["a.txt", "src/a.py", "src/b.py"]);
}

#[test]
fn a_run_log_shows_both_streams_and_the_exit() {
    assert_eq!(run_log("true", "o", "e", -1), "$ true\n\n[stdout]\no\n[stderr]\ne\n[exit -1]\n");
    assert_eq!(code_text(124), "124");
}

#[test]
fn a_killed_command_says_why() {
    assert!(killed_note(1).contains("killed after 1s"));
    let m = timed_out_message("driver", "drive", 1);
    assert!(m.contains("TIMED OUT"));
    assert!(m.contains("raise `timeouts.drive`"));
    assert!(timed_out_message("floor", "floor", 2).starts_with("floor TIMED OUT after 2s"));
}

#[test]
fn the_world_and_the_floor_are_judged_by_their_exit_codes() {
    assert_eq!(world_verdict(false, None, None), "unchecked");
    assert_eq!(world_verdict(true, Some(1), None), "unhealthy");
    assert_eq!(world_verdict(true, Some(0), Some(0)), "healthy");
    assert_eq!(world_verdict(true, None, Some(3)), "unhealthy");
    assert_eq!(floor_verdict(false, 1), "unconfigured");
    assert_eq!(floor_verdict(true, 0), "green");
    assert_eq!(floor_verdict(true, 124), "red");
    assert_eq!(floor_exit("green"), 0);
    assert_eq!(floor_exit("unconfigured"), 0);
    assert_eq!(floor_exit("red"), 1);
}

#[test]
fn the_scorer_is_read_from_its_last_lines() {
    let out = "1\n2\n3\n4\n5\n6\n7\n8\n9\n10\n\n";
    assert_eq!(last_lines(out, 8), vec!["3", "4", "5", "6", "7", "8", "9", "10"]);
    assert_eq!(last_lines("only\n", 8), vec!["only"]);
    assert!(last_lines("", 8).is_empty());
}

#[test]
fn a_brief_part_is_titled_and_trimmed() {
    assert_eq!(brief_section("goals/goal.md", "# Goal\n\n"), "===== goals/goal.md =====\n# Goal\n");
    assert_eq!(trim_end("a \t\n"), "a");
}

#[test]
fn each_phase_has_a_next_step() {
    assert_eq!(next_step("opened"), "otogo drive");
    assert_eq!(next_step("drive"), "otogo score");
    assert_eq!(next_step("verified"), "otogo close --outcome <improved|unchanged|regressed>");
    assert_eq!(next_step("whatever"), "otogo close");
}

#[test]
fn git_lists_paths_separated_by_nul() {
    assert_eq!(git_listing("a.txt\0src/b.py\0\0"), vec!["a.txt", "src/b.py"]);
    assert!(git_listing("").is_empty());
}

#[test]
fn the_stop_rules_set_the_exit_codes() {
    // world unhealthy at open or preflight: NO_SCORE
    assert_eq!(world_exit("unhealthy"), 2);
    assert_eq!(world_exit("healthy"), 0);
    assert_eq!(world_exit("unconfigured"), 0);
    // a gap in the world or the harness is not a product round
    assert_eq!(classify_exit("world"), 2);
    assert_eq!(classify_exit("harness"), 2);
    assert_eq!(classify_exit("domain"), 0);
    // a failing driver is reported, not swallowed
    assert_eq!(drive_exit(0), 0);
    assert_eq!(drive_exit(1), 1);
    assert_eq!(drive_exit(124), 1);
    // a refusal (a spent batch) leaves the decision to a person
    assert_eq!(refusal_exit(&otogo::control::LoopError("batch 1 is spent".to_string())), 2);
}

#[test]
fn verify_exits_by_world_then_floor_then_guard() {
    // a clean repair verifies
    assert_eq!(verify_exit("healthy", "green", 0), 0);
    // a repair that reddens the floor fails verification
    assert_eq!(verify_exit("healthy", "red", 0), 1);
    // a round that crossed a boundary fails verification
    assert_eq!(verify_exit("healthy", "green", 1), 1);
    // a world that goes down mid-round cannot attribute the run
    assert_eq!(verify_exit("unhealthy", "", 0), 2);
    assert_eq!(verify_exit("unhealthy", "red", 1), 2);
}
