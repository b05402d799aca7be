use std::collections::BTreeMap;

use otogo::control::sha256_hex;
use otogo::goal_loop::GoalLoop;
use otogo::guard::{is_pure_append, json_only_grew, Observed, Verdict};
use otogo::report::guard_exit;
use otogo::json::Json;
use otogo::snapshot::guards;

const CONFIG: &str = r#"{
  "version": 1,
  "commands": {
    "reset": "true", "health": "true", "floor": "true",
    "drive": "sh -c 'mkdir -p {out}; echo drove > {out}/t.txt'",
    "score": "true"
  },
  "authority": {
    "frozen": ["goals/corpus/**", "goals/loop.json", "fixtures/**"],
    "propose": ["src/contract.py"],
    "free": ["**"]
  },
  "measure": {
    "globs": ["tests/**", "witnesses.json"],
    "append_only": true,
    "json_ledgers": ["witnesses.json"]
  },
  "budget": { "rounds_per_batch": 3, "attribution_warn_areas": 3 }
}
"#;

const LEDGER: &str = r#"{
  "challenge-401": {
    "claim": "401 + WWW-Authenticate",
    "witnesses": ["go:TestChallengeShape"]
  }
}
"#;

fn s(x: &str) -> Json {
    Json::Str(x.to_string())
}

fn arr(items: Vec<Json>) -> Json {
    Json::Array(items)
}

fn obj(entries: Vec<(&str, Json)>) -> Json {
    Json::Object(entries.into_iter().map(|(k, v)| (k.to_string(), v)).collect())
}

fn grew(o: Json, n: Json) -> Vec<String> {
    let mut bad = Vec::new();
    json_only_grew(&o, &n, &"$".to_string(), &mut bad);
    bad
}

#[test]
fn append_is_allowed_and_edits_are_not() {
    assert!(is_pure_append("a\nb\n", "a\nb\nc\n"));
    assert!(is_pure_append("a\nb\n", "x\na\ny\nb\nz\n"));
    assert!(!is_pure_append("a\nb\n", "a\n"));
    assert!(!is_pure_append("assert x == 2\n", "assert True\n"));
}

#[test]
fn a_ledger_may_gain_a_witness_or_a_claim() {
    let base = || obj(vec![("c", obj(vec![("claim", s("x")), ("witnesses", arr(vec![s("go:A")]))]))]);
    assert!(grew(
        base(),
        obj(vec![("c", obj(vec![("claim", s("x")), ("witnesses", arr(vec![s("go:A"), s("sdk:B")]))]))])
    )
    .is_empty());
    assert!(grew(
        base(),
        obj(vec![
            ("c", obj(vec![("claim", s("x")), ("witnesses", arr(vec![s("go:A")]))])),
            ("d", obj(vec![("claim", s("y"))])),
        ])
    )
    .is_empty());
}

#[test]
fn a_ledger_may_not_lose_or_rewrite_evidence() {
    let base = || obj(vec![("c", obj(vec![("claim", s("x")), ("witnesses", arr(vec![s("go:A"), s("go:B")]))]))]);
    assert!(!grew(base(), obj(vec![("c", obj(vec![("claim", s("x")), ("witnesses", arr(vec![s("go:A")]))]))])).is_empty());
    assert!(!grew(
        base(),
        obj(vec![("c", obj(vec![("claim", s("x")), ("witnesses", arr(vec![s("go:A"), s("go:Easier")]))]))])
    )
    .is_empty());
    assert!(!grew(
        base(),
        obj(vec![("c", obj(vec![("claim", s("softer")), ("witnesses", arr(vec![s("go:A"), s("go:B")]))]))])
    )
    .is_empty());
    assert!(!grew(base(), obj(vec![])).is_empty());
}

#[test]
fn ledger_findings_name_the_place_and_the_change() {
    let o = obj(vec![("c", obj(vec![("claim", s("x"))]))]);
    let n = obj(vec![("c", obj(vec![("claim", s("y"))]))]);
    assert_eq!(grew(o, n), vec!["$.c.claim: 'x' -> 'y'"]);
    let o = obj(vec![("w", arr(vec![s("a"), s("b")]))]);
    let n = obj(vec![("w", arr(vec![s("a")]))]);
    assert_eq!(grew(o, n), vec!["$.w: 1 element(s) removed"]);
    let o = obj(vec![("w", arr(vec![s("a")]))]);
    let n = obj(vec![("w", s("a"))]);
    assert_eq!(grew(o, n), vec!["$.w: array replaced by string"]);
    let o = obj(vec![("k", Json::Null)]);
    assert_eq!(grew(o, obj(vec![])), vec!["$.k: removed"]);
}

/// A repository held in memory, with a round opened on it.
struct World {
    files: BTreeMap<String, String>,
    snap: Json,
    copies: BTreeMap<String, String>,
}

fn load(files: &BTreeMap<String, String>) -> GoalLoop {
    match GoalLoop::load("/repo".to_string(), "goals/loop.json", &files["goals/loop.json"], None) {
        Ok(l) => l,
        Err(e) => panic!("{}", e.message()),
    }
}

fn opened() -> World {
    let mut files = BTreeMap::new();
    for (k, v) in [
        ("src/app.py", "def escalate(i):\n    return True\n"),
        ("tests/test_rung.py", "def test_existing():\n    assert 1 + 1 == 2\n"),
        ("fixtures/seed.sql", "-- seed\n"),
        ("witnesses.json", LEDGER),
        ("goals/loop.json", CONFIG),
        ("goals/goal.md", "# Goal\n"),
        ("goals/corpus/README.md", "# Corpus\n"),
        ("goals/corpus/overdue-invoices.txt", "Show me every invoice that went overdue\n"),
        ("goals/STATE.json", "{}\n"),
    ] {
        files.insert(k.to_string(), v.to_string());
    }
    let l = load(&files);
    let frozen = l.frozen();
    let measure = l.measure();
    let mut digests = Vec::new();
    for (rel, text) in &files {
        if guards(None, &frozen, &measure, rel) {
            digests.push((rel.clone(), sha256_hex(text.as_bytes())));
        }
    }
    let (snap, measure_files) = l.snapshot(&digests);
    let mut copies = BTreeMap::new();
    for rel in measure_files {
        copies.insert(rel.clone(), files[&rel].clone());
    }
    World { files, snap, copies }
}

impl World {
    fn write(&mut self, rel: &str, text: &str) {
        self.files.insert(rel.to_string(), text.to_string());
    }

    fn remove(&mut self, rel: &str) {
        self.files.remove(rel);
    }

    fn guard(&self) -> Verdict {
        let l = load(&self.files);
        let a = l.snapshot_authority(&self.snap);
        let mut observed = Vec::new();
        let mut on_disk = Vec::new();
        for (rel, text) in &self.files {
            on_disk.push(rel.clone());
            if !guards(None, &a.frozen, &a.measure, rel) {
                continue;
            }
            let measured = a.measure.is_match(rel);
            observed.push(Observed {
                rel: rel.clone(),
                digest: sha256_hex(text.as_bytes()),
                old_text: if measured { self.copies.get(rel).cloned().unwrap_or_default() } else { String::new() },
                new_text: if measured { text.clone() } else { String::new() },
            });
        }
        l.check(&self.snap, &observed, &on_disk)
    }
}

fn has(list: &[String], needle: &str) -> bool {
    list.iter().any(|m| m.contains(needle))
}

#[test]
fn free_files_change_without_objection() {
    let mut w = opened();
    w.write("src/app.py", "def escalate(i):\n    return 'done'\n");
    let v = w.guard();
    assert!(v.ok());
    assert!(has(&v.changed_free, "src/app.py"));
    assert!(v.proposals.is_empty());
}

#[test]
fn frozen_file_cannot_be_modified() {
    let mut w = opened();
    w.write("goals/corpus/overdue-invoices.txt", "easier\n");
    let v = w.guard();
    assert!(!v.ok());
    assert!(has(&v.violations, "FROZEN modified"));
}

#[test]
fn frozen_file_cannot_be_added() {
    let mut w = opened();
    w.write("goals/corpus/convenient.txt", "a request I wrote myself\n");
    let v = w.guard();
    assert!(!v.ok());
    assert!(has(&v.violations, "FROZEN added to"));
}

#[test]
fn frozen_file_cannot_be_deleted() {
    let mut w = opened();
    w.remove("fixtures/seed.sql");
    let v = w.guard();
    assert!(!v.ok());
    assert!(has(&v.violations, "FROZEN deleted"));
}

#[test]
fn the_loop_cannot_disarm_its_own_authority() {
    let mut w = opened();
    let disarmed = CONFIG.replace(
        r#""frozen": ["goals/corpus/**", "goals/loop.json", "fixtures/**"]"#,
        r#""frozen": []"#,
    );
    assert_ne!(disarmed, CONFIG);
    w.write("goals/loop.json", &disarmed);
    let v = w.guard();
    assert!(!v.ok());
    assert!(has(&v.violations, "FROZEN modified"));
    assert!(has(&v.violations, "loop.json"));
}

#[test]
fn a_round_may_add_a_rung() {
    let mut w = opened();
    let t = format!("{}{}", w.files["tests/test_rung.py"], "\n\ndef test_new():\n    assert True\n");
    w.write("tests/test_rung.py", &t);
    let v = w.guard();
    assert!(v.ok());
    assert!(has(&v.appended_measures, "tests/test_rung.py (appended)"));
}

#[test]
fn a_round_may_not_weaken_a_rung() {
    let mut w = opened();
    w.write("tests/test_rung.py", "def test_existing():\n    assert True\n");
    let v = w.guard();
    assert!(!v.ok());
    assert!(has(&v.violations, "MEASURE weakened"));
}

#[test]
fn a_round_may_not_delete_a_rung() {
    let mut w = opened();
    w.remove("tests/test_rung.py");
    let v = w.guard();
    assert!(!v.ok());
    assert!(has(&v.violations, "MEASURE deleted"));
}

#[test]
fn may_add_a_witness_to_an_existing_claim() {
    let mut w = opened();
    w.write(
        "witnesses.json",
        r#"{"challenge-401": {"claim": "401 + WWW-Authenticate", "witnesses": ["go:TestChallengeShape", "sdk:TestChallengeFlow"]}}"#,
    );
    let v = w.guard();
    assert!(v.ok());
    assert!(has(&v.appended_measures, "ledger grew"));
}

#[test]
fn may_add_a_new_claim() {
    let mut w = opened();
    w.write(
        "witnesses.json",
        r#"{"challenge-401": {"claim": "401 + WWW-Authenticate", "witnesses": ["go:TestChallengeShape"]},
            "secret-roundtrip": {"claim": "set then get", "witnesses": ["go:TestRoundtrip"]}}"#,
    );
    assert!(w.guard().ok());
}

#[test]
fn may_not_drop_a_witness() {
    let mut w = opened();
    w.write("witnesses.json", r#"{"challenge-401": {"claim": "401 + WWW-Authenticate", "witnesses": []}}"#);
    let v = w.guard();
    assert!(!v.ok());
    assert!(has(&v.violations, "LEDGER weakened"));
}

#[test]
fn may_not_repoint_a_witness_at_an_easier_test() {
    let mut w = opened();
    w.write(
        "witnesses.json",
        r#"{"challenge-401": {"claim": "401 + WWW-Authenticate", "witnesses": ["go:TestSomethingTrivial"]}}"#,
    );
    let v = w.guard();
    assert!(!v.ok());
    assert!(has(&v.violations, "LEDGER weakened"));
}

#[test]
fn may_not_soften_a_claim() {
    let mut w = opened();
    w.write(
        "witnesses.json",
        r#"{"challenge-401": {"claim": "returns 401 sometimes", "witnesses": ["go:TestChallengeShape"]}}"#,
    );
    assert!(!w.guard().ok());
}

#[test]
fn an_unparseable_ledger_is_a_violation() {
    let mut w = opened();
    w.write("witnesses.json", "{ not json");
    let v = w.guard();
    assert!(has(&v.violations, "LEDGER unparseable: witnesses.json"));
}

#[test]
fn propose_level_change_is_recorded_not_blocked() {
    let mut w = opened();
    w.write("src/contract.py", "SCHEMA = 2\n");
    let v = w.guard();
    assert!(v.ok());
    assert!(has(&v.proposals, "src/contract.py"));
    let l = load(&w.files);
    let block = l.proposals_block(&v.proposals, "2024-01-01T00:00:00Z");
    assert!(block.contains("- [ ] src/contract.py (matches `src/contract.py`)"));
}

#[test]
fn a_round_that_adds_no_rung_is_warned() {
    let mut w = opened();
    w.write("src/app.py", "def escalate(i):\n    return 'changed'\n");
    assert!(has(&w.guard().warnings, "no deterministic check was added"));
}

#[test]
fn an_unchanged_round_is_clean() {
    let w = opened();
    let v = w.guard();
    assert!(v.ok());
    assert!(v.changed_free.is_empty());
    assert!(v.proposals.is_empty());
    assert!(v.warnings.is_empty());
    assert!(v.appended_measures.is_empty());
}

#[test]
fn touching_many_areas_warns_about_attribution() {
    let mut w = opened();
    for d in ["a", "b", "c", "d"] {
        w.write(&format!("{d}/x.txt"), "x\n");
    }
    let v = w.guard();
    assert!(has(&v.warnings, "attribution: this round touched 4 top-level areas (a, b, c, d)."));
}

#[test]
fn a_gitignored_file_is_left_out_unless_frozen_or_a_measure() {
    let w = opened();
    let l = load(&w.files);
    let (frozen, measure) = (l.frozen(), l.measure());
    assert!(!guards(Some(false), &frozen, &measure, "artifacts/binary"));
    assert!(guards(Some(false), &frozen, &measure, "fixtures/seed.sql"));
    assert!(guards(Some(false), &frozen, &measure, "tests/test_rung.py"));
    assert!(guards(None, &frozen, &measure, "artifacts/binary"));
    assert!(guards(Some(true), &frozen, &measure, "build/app.py"));
    assert!(!guards(None, &frozen, &measure, "goals/rounds/001/drive.json"));
    assert!(!guards(None, &frozen, &measure, "goals/STATE.md"));
}

#[test]
fn the_verdict_as_json_carries_every_list() {
    let mut w = opened();
    w.write("goals/corpus/overdue-invoices.txt", "easier\n");
    let v = w.guard();
    let j = v.to_json();
    assert_eq!(j.get("ok").and_then(|x| x.as_bool()), Some(false));
    let viol = j.get("violations").and_then(|x| x.as_array()).unwrap();
    assert_eq!(viol.len(), 1);
}

#[test]
fn a_guard_that_finds_a_violation_exits_one() {
    let mut v = Verdict::new();
    assert_eq!(guard_exit(&v), 0);
    v.proposals.push("goals/goal.md (matches `goals/goal.md`)".to_string());
    assert_eq!(guard_exit(&v), 0);
    v.violations.push("FROZEN modified: goals/corpus/a.txt".to_string());
    assert_eq!(guard_exit(&v), 1);
}

#[test]
fn a_scalar_replaced_by_an_array_or_object_shows_its_json() {
    let o = obj(vec![("w", s("x"))]);
    let n = obj(vec![("w", arr(vec![s("x"), s("y")]))]);
    assert_eq!(grew(o, n), vec!["$.w: 'x' -> [\"x\",\"y\"]"]);
    let o = obj(vec![("w", Json::Null)]);
    let n = obj(vec![("w", obj(vec![("b", Json::Bool(true)), ("a", s("z"))]))]);
    assert_eq!(grew(o, n), vec!["$.w: null -> {\"a\":\"z\",\"b\":true}"]);
}
