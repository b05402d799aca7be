//! The loop's configuration and state, and what they say: the commands, the
//! authority, the budgets, the open round, and the human-readable mirror of
//! the state.

use vstd::prelude::*;
use crate::control::{err, Res, GOALS, CONFIG, STATE, truncate, truncated};
use crate::glob::GlobSet;
use crate::json::{Json, JsonV, member, member2, text_of, u64_of, lemma_view_json, merge, merged, parse_json, json_text_value, json_error_text};
use crate::text::{decimal, zero_padded, zero_padded_chars, decimal_chars, string_of, trim, trimmed, texts, lemma_texts, push_text, joined, join};

verus! {

/// The text a member holds, or `d` when it holds none.
pub open spec fn text_or(j: Option<JsonV>, d: Seq<char>) -> Seq<char> {
    match text_of(j) {
        Some(t) => t,
        None => d,
    }
}

/// The number a member holds, or `d` when it holds none.
pub open spec fn num_or(j: Option<JsonV>, d: u64) -> u64 {
    match u64_of(j) {
        Some(n) => n,
        None => d,
    }
}

/// The text member `k` of `j`, or `d`.
pub fn text_field(j: &Json, k: &str, d: &str) -> (r: String)
    ensures
        r@ == text_or(member(j@, k@), d@),
{
    match j.get(k) {
        Some(v) => match v.as_str() {
            Some(s) => s.to_string(),
            None => d.to_string(),
        },
        None => d.to_string(),
    }
}

/// The number member `k` of `j`, or `d`.
pub fn num_field(j: &Json, k: &str, d: u64) -> (r: u64)
    ensures
        r == num_or(member(j@, k@), d),
{
    match j.get(k) {
        Some(v) => match v.as_u64() {
            Some(n) => n,
            None => d,
        },
        None => d,
    }
}

/// `n` in decimal, zero-padded to at least `width` digits.
pub fn padded(n: u64, width: usize) -> (r: String)
    ensures
        r@ == zero_padded(n as nat, width as nat),
{
    string_of(&zero_padded_chars(n, width))
}

/// `n` in decimal.
pub fn decimal_string(n: u64) -> (r: String)
    ensures
        r@ == decimal(n as nat),
{
    string_of(&decimal_chars(n))
}

/// A path joined to a name, as `Path::join` joins a relative name: with a
/// `/` between them unless the path is empty or already ends in one.
pub open spec fn path_join(base: Seq<char>, name: Seq<char>) -> Seq<char> {
    if base.len() == 0 || base.last() == '/' {
        base + name
    } else {
        base + seq!['/'] + name
    }
}

pub fn join_path(base: &str, name: &str) -> (r: String)
    ensures
        r@ == path_join(base@, name@),
{
    let mut out = base.to_string();
    let n = base.unicode_len();
    if n > 0 && base.get_char(n - 1) != '/' {
        out.append("/");
        proof {
            reveal_strlit("/");
        }
    }
    out.append(name);
    out
}

/// A goal loop: where it lives, its configuration (defaults merged under
/// what `goals/loop.json` states), and its state.
pub struct GoalLoop {
    pub root: String,
    pub config: Json,
    pub state: Json,
}

/// The configuration's shell command `name` (`commands.<name>`), trimmed;
/// empty when none is configured.
pub open spec fn command_of(cfg: JsonV, name: Seq<char>) -> Seq<char> {
    trimmed(text_or(member2(cfg, "commands"@, name), Seq::empty()))
}

/// The budget in seconds for command `name`: `timeouts.<name>`, else
/// `timeouts.default`, else half an hour.
pub open spec fn timeout_secs(cfg: JsonV, name: Seq<char>) -> u64 {
    match u64_of(member2(cfg, "timeouts"@, name)) {
        Some(s) => s,
        None => num_or(member2(cfg, "timeouts"@, "default"@), 1800),
    }
}

/// The number of rounds a batch may spend before a person decides.
pub open spec fn budget_of(cfg: JsonV) -> u64 {
    num_or(member2(cfg, "budget"@, "rounds_per_batch"@), 3)
}

/// How many top-level areas a round may touch before it is warned.
pub open spec fn attribution_limit_of(cfg: JsonV) -> u64 {
    num_or(member2(cfg, "budget"@, "attribution_warn_areas"@), 3)
}

/// The round open in a state, when one is.
pub open spec fn open_round_of(state: JsonV) -> Option<JsonV> {
    match member(state, "open_round"@) {
        Some(JsonV::Object(es)) => Some(JsonV::Object(es)),
        _ => None,
    }
}

/// The refusal given when a command needs an open round and there is none.
pub open spec fn no_open_round_message() -> Seq<char> {
    "no open round. Run `otogo open <request-id>`."@
}

impl GoalLoop {
    /// `goals/` under the root.
    pub fn goals(&self) -> (r: String)
        ensures
            r@ == path_join(self.root@, GOALS@),
    {
        join_path(self.root.as_str(), GOALS)
    }

    /// Where the round evidence lives.
    pub fn rounds(&self) -> (r: String)
        ensures
            r@ == path_join(path_join(self.root@, GOALS@), "rounds"@),
    {
        join_path(self.goals().as_str(), "rounds")
    }

    /// The approved requests.
    pub fn corpus(&self) -> (r: String)
        ensures
            r@ == path_join(path_join(self.root@, GOALS@), "corpus"@),
    {
        join_path(self.goals().as_str(), "corpus")
    }

    /// The machine copy of the state.
    pub fn state_path(&self) -> (r: String)
        ensures
            r@ == path_join(path_join(self.root@, GOALS@), STATE@),
    {
        join_path(self.goals().as_str(), STATE)
    }

    /// The configuration file.
    pub fn config_path(&self) -> (r: String)
        ensures
            r@ == path_join(path_join(self.root@, GOALS@), CONFIG@),
    {
        join_path(self.goals().as_str(), CONFIG)
    }

    /// The evidence directory of round `n`.
    pub fn round_dir(&self, n: u64) -> (r: String)
        ensures
            r@ == path_join(path_join(path_join(self.root@, GOALS@), "rounds"@), zero_padded(n as nat, 3)),
    {
        join_path(self.rounds().as_str(), padded(n, 3).as_str())
    }

    /// The shell command configured as `name`, trimmed; empty when none is.
    pub fn cmd(&self, name: &str) -> (r: String)
        ensures
            r@ == command_of(self.config@, name@),
    {
        let raw = match self.config.get2("commands", name) {
            Some(v) => match v.as_str() {
                Some(s) => s.to_string(),
                None => String::new(),
            },
            None => String::new(),
        };
        trim(raw.as_str())
    }

    /// The frozen level: the exam.
    pub fn frozen(&self) -> (r: GlobSet)
        ensures
            r@ == crate::guard::globs_of(member2(self.config@, "authority"@, "frozen"@)),
    {
        GlobSet::from_json(self.config.get2("authority", "frozen"))
    }

    /// The propose level: a person decides.
    pub fn propose(&self) -> (r: GlobSet)
        ensures
            r@ == crate::guard::globs_of(member2(self.config@, "authority"@, "propose"@)),
    {
        GlobSet::from_json(self.config.get2("authority", "propose"))
    }

    /// The measures: append-only rungs.
    pub fn measure(&self) -> (r: GlobSet)
        ensures
            r@ == crate::guard::globs_of(member2(self.config@, "measure"@, "globs"@)),
    {
        GlobSet::from_json(self.config.get2("measure", "globs"))
    }

    /// The budget in seconds for one command: `timeouts.<name>` wins over
    /// `timeouts.default`; 0 means no limit.
    pub fn timeout_for(&self, name: &str) -> (r: Option<u64>)
        ensures
            r == (if timeout_secs(self.config@, name@) == 0 {
                None
            } else {
                Some(timeout_secs(self.config@, name@))
            }),
    {
        let named = match self.config.get2("timeouts", name) {
            Some(v) => v.as_u64(),
            None => None,
        };
        let secs = match named {
            Some(s) => s,
            None => match self.config.get2("timeouts", "default") {
                Some(v) => match v.as_u64() {
                    Some(s) => s,
                    None => 1800,
                },
                None => 1800,
            },
        };
        if secs == 0 {
            None
        } else {
            Some(secs)
        }
    }

    /// Rounds a batch may spend.
    pub fn budget(&self) -> (r: u64)
        ensures
            r == budget_of(self.config@),
    {
        match self.config.get2("budget", "rounds_per_batch") {
            Some(v) => match v.as_u64() {
                Some(n) => n,
                None => 3,
            },
            None => 3,
        }
    }

    /// Top-level areas a round may touch before it is warned.
    pub fn attribution_limit(&self) -> (r: u64)
        ensures
            r == attribution_limit_of(self.config@),
    {
        match self.config.get2("budget", "attribution_warn_areas") {
            Some(v) => match v.as_u64() {
                Some(n) => n,
                None => 3,
            },
            None => 3,
        }
    }

    /// The open round, or the refusal that there is none.
    pub fn open_round(&self) -> (r: Res<&Json>)
        ensures
            match open_round_of(self.state@) {
                Some(o) => r matches Ok(j) && j@ == o,
                None => r matches Err(e) && e.0@ == no_open_round_message(),
            },
    {
        match self.state.get("open_round") {
            Some(v) => {
                proof {
                    lemma_view_json(*v);
                }
                match v {
                    Json::Object(_) => Ok(v),
                    _ => err("no open round. Run `otogo open <request-id>`.".to_string()),
                }
            },
            None => err("no open round. Run `otogo open <request-id>`.".to_string()),
        }
    }
}


pub open spec fn jstr(s: Seq<char>) -> JsonV {
    JsonV::Str(s)
}

pub open spec fn jnum(n: nat) -> JsonV {
    JsonV::Number(decimal(n))
}

/// The configuration a fresh `goals/loop.json` starts from, and under which
/// a partial one is merged.
pub open spec fn default_config_v() -> JsonV {
    JsonV::Object(
        seq![
            ("version"@, jnum(1)),
            ("commands"@, JsonV::Object(
                seq![
                    ("reset"@, jstr(""@)),
                    ("health"@, jstr(""@)),
                    ("floor"@, jstr(""@)),
                    ("drive"@, jstr(""@)),
                    ("score"@, jstr(""@)),
                ],
            )),
            ("authority"@, JsonV::Object(
                seq![
                    ("frozen"@, JsonV::Array(
                        seq![
                            jstr("goals/corpus/**"@),
                            jstr("goals/rubric.md"@),
                            jstr("goals/score/**"@),
                            jstr("goals/loop.json"@),
                            jstr("fixtures/**"@),
                        ],
                    )),
                    ("propose"@, JsonV::Array(Seq::empty())),
                    ("free"@, JsonV::Array(seq![jstr("**"@)])),
                ],
            )),
            ("measure"@, JsonV::Object(
                seq![
                    ("globs"@, JsonV::Array(seq![jstr("tests/**"@)])),
                    ("append_only"@, JsonV::Bool(true)),
                    ("json_ledgers"@, JsonV::Array(Seq::empty())),
                ],
            )),
            ("budget"@, JsonV::Object(
                seq![("rounds_per_batch"@, jnum(3)), ("attribution_warn_areas"@, jnum(3))],
            )),
            ("timeouts"@, JsonV::Object(seq![("default"@, jnum(1800))])),
        ],
    )
}

/// The default configuration names each key once, at every level.
pub proof fn lemma_default_config_well_formed()
    ensures
        crate::json::well_formed(default_config_v()),
{
    reveal_strlit("version");
    reveal_strlit("commands");
    reveal_strlit("authority");
    reveal_strlit("measure");
    reveal_strlit("budget");
    reveal_strlit("timeouts");
    reveal_strlit("reset");
    reveal_strlit("health");
    reveal_strlit("floor");
    reveal_strlit("drive");
    reveal_strlit("score");
    reveal_strlit("frozen");
    reveal_strlit("propose");
    reveal_strlit("free");
    reveal_strlit("globs");
    reveal_strlit("append_only");
    reveal_strlit("json_ledgers");
    reveal_strlit("rounds_per_batch");
    reveal_strlit("attribution_warn_areas");
    reveal_strlit("default");
    let top = default_config_v()->Object_0;
    assert forall|i: int, j: int| 0 <= i < j < top.len() implies #[trigger] top[i].0 != #[trigger] top[j].0 by {
        assert(top[i].0[0] != top[j].0[0]);
    }
    let cmds = top[1].1->Object_0;
    assert forall|i: int, j: int| 0 <= i < j < cmds.len() implies #[trigger] cmds[i].0 != #[trigger] cmds[j].0 by {
        assert(cmds[i].0[0] != cmds[j].0[0]);
    }
    let auth = top[2].1->Object_0;
    assert forall|i: int, j: int| 0 <= i < j < auth.len() implies #[trigger] auth[i].0 != #[trigger] auth[j].0 by {
        if i == 0 && j == 2 {
            assert(auth[i].0[2] != auth[j].0[2]);
        } else {
            assert(auth[i].0[0] != auth[j].0[0]);
        }
    }
    let meas = top[3].1->Object_0;
    assert forall|i: int, j: int| 0 <= i < j < meas.len() implies #[trigger] meas[i].0 != #[trigger] meas[j].0 by {
        assert(meas[i].0[0] != meas[j].0[0]);
    }
    let bud = top[4].1->Object_0;
    assert forall|i: int, j: int| 0 <= i < j < bud.len() implies #[trigger] bud[i].0 != #[trigger] bud[j].0 by {
        assert(bud[i].0[0] != bud[j].0[0]);
    }
    let frozen = auth[0].1->Array_0;
    assert forall|i: int| 0 <= i < frozen.len() implies crate::json::well_formed(#[trigger] frozen[i]) by {}
    assert forall|i: int| 0 <= i < cmds.len() implies crate::json::well_formed(#[trigger] cmds[i].1) by {}
    assert forall|i: int| 0 <= i < auth.len() implies crate::json::well_formed(#[trigger] auth[i].1) by {
        if i == 2 {
            let fr = auth[2].1->Array_0;
            assert forall|k: int| 0 <= k < fr.len() implies crate::json::well_formed(#[trigger] fr[k]) by {}
        }
    }
    assert forall|i: int| 0 <= i < meas.len() implies crate::json::well_formed(#[trigger] meas[i].1) by {
        if i == 0 {
            let g = meas[0].1->Array_0;
            assert forall|k: int| 0 <= k < g.len() implies crate::json::well_formed(#[trigger] g[k]) by {}
        }
    }
    assert forall|i: int| 0 <= i < bud.len() implies crate::json::well_formed(#[trigger] bud[i].1) by {}
    let tos = top[5].1->Object_0;
    assert forall|i: int| 0 <= i < tos.len() implies crate::json::well_formed(#[trigger] tos[i].1) by {}
    assert forall|i: int| 0 <= i < top.len() implies crate::json::well_formed(#[trigger] top[i].1) by {}
}

/// The state of a loop that has run no round: batch 1, nothing spent,
/// nothing open, nothing queued, no history.
pub open spec fn initial_state_v() -> JsonV {
    JsonV::Object(
        seq![
            ("batch"@, jnum(1)),
            ("rounds_in_batch"@, jnum(0)),
            ("open_round"@, JsonV::Null),
            ("queue"@, JsonV::Array(Seq::empty())),
            ("history"@, JsonV::Array(Seq::empty())),
        ],
    )
}

/// An object with the given entries, in order.
pub fn object_of(es: Vec<(String, Json)>) -> (r: Json)
    ensures
        r@ == JsonV::Object(crate::json::view_entries(es@)),
{
    Json::Object(es)
}

/// An array with the given items, in order.
pub fn array_of(items: Vec<Json>) -> (r: Json)
    ensures
        r@ == JsonV::Array(crate::json::view_items(items@)),
{
    Json::Array(items)
}

fn texts_of(items: &Vec<&str>) -> (r: Json)
    ensures
        r@ == JsonV::Array(Seq::new(items@.len(), |i: int| JsonV::Str(items@[i]@))),
{
    let mut v: Vec<Json> = Vec::new();
    for i in 0..items.len()
        invariant
            crate::json::view_items(v@) == Seq::new(i as nat, |k: int| JsonV::Str(items@[k]@)),
    {
        let ghost before = v@;
        v.push(Json::text(items[i]));
        proof {
            assert(v@.drop_last() == before);
            crate::json::lemma_view_items(v@);
            crate::json::lemma_view_items(before);
            assert(crate::json::view_items(v@) =~= Seq::new((i + 1) as nat, |k: int| JsonV::Str(items@[k]@)));
        }
    }
    Json::Array(v)
}

fn pair(k: &str, v: Json) -> (r: (String, Json))
    ensures
        r.0@ == k@,
        r.1 == v,
{
    (k.to_string(), v)
}

proof fn lemma_entries_of(es: Seq<(String, Json)>)
    ensures
        crate::json::view_entries(es) == Seq::new(es.len(), |i: int| (es[i].0@, es[i].1@)),
{
    crate::json::lemma_view_entries(es);
    assert(crate::json::view_entries(es) =~= Seq::new(es.len(), |i: int| (es[i].0@, es[i].1@)));
}

/// The default configuration.
pub fn default_config() -> (r: Json)
    ensures
        r@ == default_config_v(),
{
    let mut cmds: Vec<(String, Json)> = Vec::new();
    cmds.push(pair("reset", Json::text("")));
    cmds.push(pair("health", Json::text("")));
    cmds.push(pair("floor", Json::text("")));
    cmds.push(pair("drive", Json::text("")));
    cmds.push(pair("score", Json::text("")));
    proof {
        lemma_entries_of(cmds@);
        assert(crate::json::view_entries(cmds@) =~= seq![
            ("reset"@, jstr(""@)),
            ("health"@, jstr(""@)),
            ("floor"@, jstr(""@)),
            ("drive"@, jstr(""@)),
            ("score"@, jstr(""@)),
        ]);
    }
    let commands = object_of(cmds);

    let mut fz: Vec<&str> = Vec::new();
    fz.push("goals/corpus/**");
    fz.push("goals/rubric.md");
    fz.push("goals/score/**");
    fz.push("goals/loop.json");
    fz.push("fixtures/**");
    let frozen = texts_of(&fz);
    proof {
        assert(Seq::new(fz@.len(), |i: int| JsonV::Str(fz@[i]@)) =~= seq![
            jstr("goals/corpus/**"@),
            jstr("goals/rubric.md"@),
            jstr("goals/score/**"@),
            jstr("goals/loop.json"@),
            jstr("fixtures/**"@),
        ]);
    }
    let mut fr: Vec<&str> = Vec::new();
    fr.push("**");
    let free = texts_of(&fr);
    proof {
        assert(Seq::new(fr@.len(), |i: int| JsonV::Str(fr@[i]@)) =~= seq![jstr("**"@)]);
    }
    let none: Vec<&str> = Vec::new();
    let propose = texts_of(&none);
    let mut au: Vec<(String, Json)> = Vec::new();
    au.push(pair("frozen", frozen));
    au.push(pair("propose", propose));
    au.push(pair("free", free));
    proof {
        lemma_entries_of(au@);
        assert(Seq::new(0nat, |i: int| JsonV::Str(none@[i]@)) =~= Seq::<JsonV>::empty());
        assert(crate::json::view_entries(au@) =~= seq![
            ("frozen"@, JsonV::Array(seq![
                jstr("goals/corpus/**"@),
                jstr("goals/rubric.md"@),
                jstr("goals/score/**"@),
                jstr("goals/loop.json"@),
                jstr("fixtures/**"@),
            ])),
            ("propose"@, JsonV::Array(Seq::empty())),
            ("free"@, JsonV::Array(seq![jstr("**"@)])),
        ]);
    }
    let authority = object_of(au);

    let mut gl: Vec<&str> = Vec::new();
    gl.push("tests/**");
    let globs = texts_of(&gl);
    proof {
        assert(Seq::new(gl@.len(), |i: int| JsonV::Str(gl@[i]@)) =~= seq![jstr("tests/**"@)]);
    }
    let ledgers = texts_of(&none);
    let mut me: Vec<(String, Json)> = Vec::new();
    me.push(pair("globs", globs));
    me.push(pair("append_only", Json::Bool(true)));
    me.push(pair("json_ledgers", ledgers));
    proof {
        lemma_entries_of(me@);
        lemma_view_json(Json::Bool(true));
        assert(crate::json::view_entries(me@) =~= seq![
            ("globs"@, JsonV::Array(seq![jstr("tests/**"@)])),
            ("append_only"@, JsonV::Bool(true)),
            ("json_ledgers"@, JsonV::Array(Seq::empty())),
        ]);
    }
    let measure = object_of(me);

    let mut bu: Vec<(String, Json)> = Vec::new();
    bu.push(pair("rounds_per_batch", Json::num(3)));
    bu.push(pair("attribution_warn_areas", Json::num(3)));
    proof {
        lemma_entries_of(bu@);
        assert(crate::json::view_entries(bu@) =~= seq![("rounds_per_batch"@, jnum(3)), ("attribution_warn_areas"@, jnum(3))]);
    }
    let budget = object_of(bu);

    let mut to: Vec<(String, Json)> = Vec::new();
    to.push(pair("default", Json::num(1800)));
    proof {
        lemma_entries_of(to@);
        assert(crate::json::view_entries(to@) =~= seq![("default"@, jnum(1800))]);
    }
    let timeouts = object_of(to);

    let mut top: Vec<(String, Json)> = Vec::new();
    top.push(pair("version", Json::num(1)));
    top.push(pair("commands", commands));
    top.push(pair("authority", authority));
    top.push(pair("measure", measure));
    top.push(pair("budget", budget));
    top.push(pair("timeouts", timeouts));
    proof {
        lemma_entries_of(top@);
        assert(crate::json::view_entries(top@) =~= default_config_v()->Object_0);
    }
    let r = object_of(top);
    proof {
        assert(r@ =~= default_config_v());
    }
    r
}

/// The state of a loop that has run no round.
pub fn initial_state() -> (r: Json)
    ensures
        r@ == initial_state_v(),
{
    let mut es: Vec<(String, Json)> = Vec::new();
    es.push(pair("batch", Json::num(1)));
    es.push(pair("rounds_in_batch", Json::num(0)));
    es.push(pair("open_round", Json::Null));
    let q: Vec<Json> = Vec::new();
    let h: Vec<Json> = Vec::new();
    es.push(pair("queue", array_of(q)));
    es.push(pair("history", array_of(h)));
    proof {
        lemma_entries_of(es@);
        assert(crate::json::view_items(q@) =~= Seq::<JsonV>::empty());
        assert(crate::json::view_items(h@) =~= Seq::<JsonV>::empty());
        lemma_view_json(Json::Null);
        assert(crate::json::view_entries(es@) =~= seq![
            ("batch"@, jnum(1)),
            ("rounds_in_batch"@, jnum(0)),
            ("open_round"@, JsonV::Null),
            ("queue"@, JsonV::Array(Seq::empty())),
            ("history"@, JsonV::Array(Seq::empty())),
        ]);
    }
    let r = object_of(es);
    proof {
        assert(r@ =~= initial_state_v());
    }
    r
}


/// The configuration a loop runs with: the defaults, with what
/// `goals/loop.json` states merged over them.
pub open spec fn effective_config(parsed: JsonV) -> JsonV {
    merged(default_config_v(), parsed)
}

/// The state `STATE.json` holds, or the initial state when there is no such
/// file or it is not JSON.
pub open spec fn state_from(text: Option<Seq<char>>) -> JsonV {
    match text {
        Some(t) => match json_text_value(t) {
            Some(v) => v,
            None => initial_state_v(),
        },
        None => initial_state_v(),
    }
}

impl GoalLoop {
    /// The loop rooted at `root`, from the text of its `goals/loop.json`
    /// (read from `config_path`) and of its `STATE.json` when there is one.
    /// A configuration that is not JSON is refused, naming the file.
    pub fn load(root: String, config_path: &str, config_text: &str, state_text: Option<&str>) -> (r: Res<GoalLoop>)
        ensures
            match json_text_value(config_text@) {
                Some(parsed) => r matches Ok(l) && l.root@ == root@ && l.config@ == effective_config(parsed)
                    && crate::json::well_formed(l.config@)
                    && l.state@ == state_from(match state_text {
                    Some(t) => Some(t@),
                    None => None,
                }),
                None => r matches Err(e) && e.0@ == config_path@ + ": "@ + json_error_text(config_text@),
            },
    {
        match parse_json(config_text) {
            Err(e) => {
                let mut m = config_path.to_string();
                proof {
                    reveal_strlit(": ");
                }
                m.append(": ");
                m.append(e.as_str());
                err(m)
            },
            Ok(parsed) => {
                proof {
                    lemma_default_config_well_formed();
                }
                let config = merge(&default_config(), &parsed);
                let state = match state_text {
                    Some(t) => match parse_json(t) {
                        Ok(v) => v,
                        Err(_) => initial_state(),
                    },
                    None => initial_state(),
                };
                Ok(GoalLoop { root, config, state })
            },
        }
    }
}

/// The items of an array member, or none.
pub open spec fn items_of(j: Option<JsonV>) -> Seq<JsonV> {
    match j {
        Some(JsonV::Array(a)) => a,
        _ => Seq::empty(),
    }
}

/// The lines describing the open round `r`.
pub open spec fn round_lines(r: JsonV) -> Seq<Seq<char>> {
    let n = num_or(member(r, "n"@), 0);
    let gap = text_or(member(r, "gap"@), ""@);
    let layer = text_or(member(r, "layer"@), ""@);
    seq![
        "## Open round "@ + zero_padded(n as nat, 3) + " — request `"@ + text_or(member(r, "request"@), ""@) + "`"@,
        "- phase: **"@ + text_or(member(r, "phase"@), "opened"@) + "**"@,
        "- world: "@ + text_or(member(r, "world"@), "unknown"@),
        "- floor: "@ + text_or(member(r, "floor"@), "not run"@),
        "- gap: "@ + (if gap.len() == 0 {
            "_unclassified_"@
        } else {
            gap
        }) + (if layer.len() == 0 {
            Seq::empty()
        } else {
            " (layer: `"@ + layer + "`)"@
        }),
        "- evidence: `goals/rounds/"@ + zero_padded(n as nat, 3) + "/`"@,
        Seq::empty(),
    ]
}

/// The queue, numbered from one; `_empty_` when nothing is queued.
pub open spec fn queue_lines(q: Seq<JsonV>) -> Seq<Seq<char>> {
    if q.len() == 0 {
        seq!["_empty_"@]
    } else {
        Seq::new(q.len(), |i: int| decimal((i + 1) as nat) + ". "@ + text_or(Some(q[i]), ""@))
    }
}

/// A text, or a dash when it is empty.
pub open spec fn or_dash(t: Seq<char>) -> Seq<char> {
    if t.len() == 0 {
        "—"@
    } else {
        t
    }
}

/// One closed round as a table row.
pub open spec fn history_row(e: JsonV) -> Seq<char> {
    "| "@ + zero_padded(num_or(member(e, "n"@), 0) as nat, 3) + " | `"@ + text_or(member(e, "request"@), ""@) + "` | "@
        + or_dash(text_or(member(e, "layer"@), ""@)) + " | "@ + truncated(text_or(member(e, "gap"@), "—"@), 60) + " | "@
        + text_or(member(e, "outcome"@), ""@) + " |"@
}

/// How many of `len` entries a list shows when it shows at most `k`.
pub open spec fn shown_count(len: nat, k: nat) -> nat {
    if len < k {
        len
    } else {
        k
    }
}

/// The twelve most recent rounds, newest first, as a table; `_none yet_`
/// when no round has closed.
pub open spec fn history_lines(h: Seq<JsonV>) -> Seq<Seq<char>> {
    if h.len() == 0 {
        seq!["_none yet_"@]
    } else {
        seq!["| # | request | layer | gap | outcome |"@, "|---|---------|-------|-----|---------|"@] + Seq::new(
            shown_count(h.len(), 12),
            |i: int| history_row(h[h.len() - 1 - i]),
        )
    }
}

/// One recorded friction as a list item.
pub open spec fn friction_row(f: JsonV) -> Seq<char> {
    "- ("@ + decimal(num_or(member(f, "count"@), 1) as nat) + "x) "@ + text_or(member(f, "note"@), ""@)
}

/// The ten most recent frictions, oldest first; nothing at all when none is
/// recorded.
pub open spec fn friction_lines(f: Seq<JsonV>) -> Seq<Seq<char>> {
    if f.len() == 0 {
        Seq::empty()
    } else {
        let k = shown_count(f.len(), 10);
        seq!["## Open friction (candidates for harness change)"@, Seq::empty()] + Seq::new(
            k,
            |i: int| friction_row(f[f.len() - k + i]),
        ) + seq![Seq::empty()]
    }
}

/// The lines of `STATE.md` for state `s`, a batch budget, and the time it
/// was generated at.
pub open spec fn state_md_lines(s: JsonV, budget: u64, at: Seq<char>) -> Seq<Seq<char>> {
    seq!["# STATE"@, Seq::empty(), "_Generated by otogo at "@ + at + ". Machine copy: goals/STATE.json._"@, Seq::empty()]
        + (match open_round_of(s) {
        Some(r) => round_lines(r),
        None => seq!["## No open round"@, Seq::empty()],
    }) + seq![
        "## Batch "@ + decimal(num_or(member(s, "batch"@), 1) as nat),
        "- rounds used: "@ + decimal(num_or(member(s, "rounds_in_batch"@), 0) as nat) + " / "@ + decimal(budget as nat),
        Seq::empty(),
    ] + seq!["## Queue"@] + queue_lines(items_of(member(s, "queue"@))) + seq![Seq::empty()] + seq![
        "## Recent rounds"@,
        Seq::empty(),
    ] + history_lines(items_of(member(s, "history"@))) + seq![Seq::empty()] + friction_lines(
        items_of(member(s, "friction"@)),
    )
}

/// The text member `k` of an optional value, or `d`.
fn text_in(j: Option<&Json>, k: &str, d: &str) -> (r: String)
    ensures
        r@ == match j {
            Some(x) => text_or(member(x@, k@), d@),
            None => d@,
        },
{
    match j {
        Some(x) => text_field(x, k, d),
        None => d.to_string(),
    }
}

/// The items of array member `k` of `j`, or none.
fn items_in<'a>(j: &'a Json, k: &str) -> (r: &'a [Json])
    ensures
        crate::json::view_items(r@) == items_of(member(j@, k@)),
{
    match j.get(k) {
        Some(v) => match v.as_array() {
            Some(a) => a.as_slice(),
            None => {
                proof {
                    lemma_view_json(*v);
                }
                let e: &[Json] = &[];
                proof {
                    assert(e@ =~= Seq::<Json>::empty());
                    assert(crate::json::view_items(e@) =~= Seq::<JsonV>::empty());
                }
                e
            },
        },
        None => {
            let e: &[Json] = &[];
            proof {
                assert(e@ =~= Seq::<Json>::empty());
                assert(crate::json::view_items(e@) =~= Seq::<JsonV>::empty());
            }
            e
        },
    }
}

fn round_section(r: &Json) -> (out: Vec<String>)
    ensures
        texts(out@) == round_lines(r@),
{
    proof {
        reveal_strlit("");
    }
    let n = num_field(r, "n", 0);
    let gap = text_field(r, "gap", "");
    let layer = text_field(r, "layer", "");
    let mut out: Vec<String> = Vec::new();
    let mut a = "## Open round ".to_string();
    a.append(padded(n, 3).as_str());
    a.append(" — request `");
    a.append(text_field(r, "request", "").as_str());
    a.append("`");
    push_text(&mut out, a);
    let mut b = "- phase: **".to_string();
    b.append(text_field(r, "phase", "opened").as_str());
    b.append("**");
    push_text(&mut out, b);
    let mut c = "- world: ".to_string();
    c.append(text_field(r, "world", "unknown").as_str());
    push_text(&mut out, c);
    let mut d = "- floor: ".to_string();
    d.append(text_field(r, "floor", "not run").as_str());
    push_text(&mut out, d);
    let mut g = "- gap: ".to_string();
    if gap.unicode_len() == 0 {
        g.append("_unclassified_");
    } else {
        g.append(gap.as_str());
    }
    if layer.unicode_len() > 0 {
        g.append(" (layer: `");
        g.append(layer.as_str());
        g.append("`)");
    }
    push_text(&mut out, g);
    let mut e = "- evidence: `goals/rounds/".to_string();
    e.append(padded(n, 3).as_str());
    e.append("/`");
    push_text(&mut out, e);
    push_text(&mut out, String::new());
    proof {
        lemma_texts(out@);
        let rl = round_lines(r@);
        assert(texts(out@)[0] == rl[0]);
        assert(texts(out@)[1] == rl[1]);
        assert(texts(out@)[2] == rl[2]);
        assert(texts(out@)[3] == rl[3]);
        assert(texts(out@)[4] == rl[4]);
        assert(texts(out@)[5] == rl[5]);
        assert(texts(out@)[6] == rl[6]);
        assert(texts(out@) =~= round_lines(r@));
    }
    out
}

fn queue_section(q: &[Json]) -> (out: Vec<String>)
    ensures
        texts(out@) == queue_lines(crate::json::view_items(q@)),
{
    proof {
        crate::json::lemma_view_items(q@);
    }
    let mut out: Vec<String> = Vec::new();
    if q.len() == 0 {
        push_text(&mut out, "_empty_".to_string());
        proof {
            assert(texts(out@) =~= queue_lines(crate::json::view_items(q@)));
        }
        return out;
    }
    let n = q.len();
    for i in 0..n
        invariant
            n == q@.len(),
            n > 0,
            crate::json::view_items(q@).len() == n,
            forall|k: int| 0 <= k < n ==> #[trigger] crate::json::view_items(q@)[k] == q@[k]@,
            texts(out@) == queue_lines(crate::json::view_items(q@)).take(i as int),
    {
        let mut m = decimal_string((i + 1) as u64);
        m.append(". ");
        let t = match q[i].as_str() {
            Some(s) => s.to_string(),
            None => "".to_string(),
        };
        m.append(t.as_str());
        push_text(&mut out, m);
        proof {
            assert(texts(out@) =~= queue_lines(crate::json::view_items(q@)).take(i + 1));
        }
    }
    proof {
        assert(queue_lines(crate::json::view_items(q@)).take(n as int) =~= queue_lines(crate::json::view_items(q@)));
    }
    out
}

fn history_section(h: &[Json]) -> (out: Vec<String>)
    ensures
        texts(out@) == history_lines(crate::json::view_items(h@)),
{
    proof {
        crate::json::lemma_view_items(h@);
        reveal_strlit("");
    }
    let ghost hv = crate::json::view_items(h@);
    let mut out: Vec<String> = Vec::new();
    let n = h.len();
    if n == 0 {
        push_text(&mut out, "_none yet_".to_string());
        proof {
            assert(texts(out@) =~= history_lines(hv));
        }
        return out;
    }
    push_text(&mut out, "| # | request | layer | gap | outcome |".to_string());
    push_text(&mut out, "|---|---------|-------|-----|---------|".to_string());
    let k: usize = if n < 12 { n } else { 12 };
    for i in 0..k
        invariant
            n == h@.len(),
            n > 0,
            k == shown_count(n as nat, 12),
            hv == crate::json::view_items(h@),
            hv.len() == n,
            forall|j: int| 0 <= j < n ==> #[trigger] hv[j] == h@[j]@,
            texts(out@) == history_lines(hv).take(i + 2),
    {
        let e = &h[n - 1 - i];
        let mut m = "| ".to_string();
        m.append(padded(num_field(e, "n", 0), 3).as_str());
        m.append(" | `");
        m.append(text_field(e, "request", "").as_str());
        m.append("` | ");
        let layer = text_field(e, "layer", "");
        if layer.unicode_len() == 0 {
            m.append("—");
        } else {
            m.append(layer.as_str());
        }
        m.append(" | ");
        m.append(truncate(text_field(e, "gap", "—").as_str(), 60).as_str());
        m.append(" | ");
        m.append(text_field(e, "outcome", "").as_str());
        m.append(" |");
        push_text(&mut out, m);
        proof {
            assert(hv[n - 1 - i] == e@);
            assert(texts(out@) =~= history_lines(hv).take(i + 3));
        }
    }
    proof {
        assert(history_lines(hv).take(k + 2) =~= history_lines(hv));
    }
    out
}

fn friction_section(f: &[Json]) -> (out: Vec<String>)
    ensures
        texts(out@) == friction_lines(crate::json::view_items(f@)),
{
    proof {
        crate::json::lemma_view_items(f@);
        reveal_strlit("");
    }
    let ghost fv = crate::json::view_items(f@);
    let mut out: Vec<String> = Vec::new();
    let n = f.len();
    if n == 0 {
        proof {
            assert(texts(out@) =~= friction_lines(fv));
        }
        return out;
    }
    push_text(&mut out, "## Open friction (candidates for harness change)".to_string());
    push_text(&mut out, String::new());
    let k: usize = if n < 10 { n } else { 10 };
    let start = n - k;
    for i in 0..k
        invariant
            n == f@.len(),
            n > 0,
            k == shown_count(n as nat, 10),
            start == n - k,
            fv == crate::json::view_items(f@),
            fv.len() == n,
            forall|j: int| 0 <= j < n ==> #[trigger] fv[j] == f@[j]@,
            texts(out@) == friction_lines(fv).take(i + 2),
    {
        let e = &f[start + i];
        let mut m = "- (".to_string();
        m.append(decimal_string(num_field(e, "count", 1)).as_str());
        m.append("x) ");
        m.append(text_field(e, "note", "").as_str());
        push_text(&mut out, m);
        proof {
            assert(fv[start + i] == e@);
            assert(texts(out@) =~= friction_lines(fv).take(i + 3));
        }
    }
    push_text(&mut out, String::new());
    proof {
        assert(texts(out@) =~= friction_lines(fv));
    }
    out
}

/// Appends every text of `more` to `out`.
pub fn append_texts(out: &mut Vec<String>, more: Vec<String>)
    ensures
        texts(final(out)@) == texts(old(out)@) + texts(more@),
{
    let ghost start = texts(out@);
    proof {
        lemma_texts(more@);
    }
    let n = more.len();
    for i in 0..n
        invariant
            n == more@.len(),
            texts(more@).len() == n,
            forall|k: int| 0 <= k < n ==> #[trigger] texts(more@)[k] == more@[k]@,
            texts(out@) == start + texts(more@).take(i as int),
    {
        push_text(out, more[i].clone());
        proof {
            assert(texts(out@) =~= start + texts(more@).take(i + 1));
        }
    }
    proof {
        assert(texts(more@).take(n as int) =~= texts(more@));
    }
}

impl GoalLoop {
    /// The human-readable mirror of `STATE.json`, generated at `at`: the open
    /// round, the batch, the queue, the twelve most recent rounds and the
    /// recent friction. Sessions are disposable; this file is one of the
    /// things that makes them so without losing the thread.
    pub fn state_md(&self, at: &str) -> (r: String)
        ensures
            r@ == joined(state_md_lines(self.state@, budget_of(self.config@), at@), "\n"@),
    {
        let s = &self.state;
        let mut l: Vec<String> = Vec::new();
        push_text(&mut l, "# STATE".to_string());
        push_text(&mut l, String::new());
        let mut g = "_Generated by otogo at ".to_string();
        g.append(at);
        g.append(". Machine copy: goals/STATE.json._");
        push_text(&mut l, g);
        push_text(&mut l, String::new());
        let ghost head = texts(l@);
        match self.open_round() {
            Ok(r) => append_texts(&mut l, round_section(r)),
            Err(_) => {
                push_text(&mut l, "## No open round".to_string());
                push_text(&mut l, String::new());
            },
        }
        let ghost with_round = texts(l@);
        let mut b = "## Batch ".to_string();
        b.append(decimal_string(num_field(s, "batch", 1)).as_str());
        push_text(&mut l, b);
        let mut u = "- rounds used: ".to_string();
        u.append(decimal_string(num_field(s, "rounds_in_batch", 0)).as_str());
        u.append(" / ");
        u.append(decimal_string(self.budget()).as_str());
        push_text(&mut l, u);
        push_text(&mut l, String::new());
        push_text(&mut l, "## Queue".to_string());
        append_texts(&mut l, queue_section(items_in(s, "queue")));
        push_text(&mut l, String::new());
        push_text(&mut l, "## Recent rounds".to_string());
        push_text(&mut l, String::new());
        append_texts(&mut l, history_section(items_in(s, "history")));
        push_text(&mut l, String::new());
        append_texts(&mut l, friction_section(items_in(s, "friction")));
        proof {
            assert(texts(l@) =~= state_md_lines(self.state@, budget_of(self.config@), at@));
        }
        join(&l, "\n")
    }

    /// `STATE.md` as of now.
    pub fn render_state_md(&self) -> (r: String)
        ensures
            exists|secs: nat| r@ == joined(state_md_lines(self.state@, budget_of(self.config@), crate::control::utc_stamp(secs)), "\n"@),
    {
        let at = crate::control::now();
        self.state_md(at.as_str())
    }
}

/// `STATE.md` lists the most recent rounds newest first: under `## Recent
/// rounds` (after the header, the open-round section, the batch and the
/// queue) and the table's two heading lines, its `i`-th row is the `i`-th
/// newest round of the history, for each of the (at most twelve) rounds it
/// shows.
pub proof fn lemma_state_md_lists_newest_rounds_first(s: JsonV, budget: u64, at: Seq<char>, i: int)
    requires
        items_of(member(s, "history"@)).len() > 0,
        0 <= i < shown_count(items_of(member(s, "history"@)).len(), 12),
    ensures
        ({
            let h = items_of(member(s, "history"@));
            let lines = state_md_lines(s, budget, at);
            let p: int = 4 + (match open_round_of(s) {
                Some(r) => round_lines(r).len() as int,
                None => 2int,
            }) + 4 + queue_lines(items_of(member(s, "queue"@))).len() + 1;
            &&& lines[p] == "## Recent rounds"@
            &&& lines[p + 4 + i] == history_row(h[h.len() - 1 - i])
        }),
{
    let h = items_of(member(s, "history"@));
    let q = items_of(member(s, "queue"@));
    let open: Seq<Seq<char>> = match open_round_of(s) {
        Some(r) => round_lines(r),
        None => seq!["## No open round"@, Seq::empty()],
    };
    let head = seq!["# STATE"@, Seq::empty(), "_Generated by otogo at "@ + at + ". Machine copy: goals/STATE.json._"@, Seq::empty()]
        + open + seq![
        "## Batch "@ + decimal(num_or(member(s, "batch"@), 1) as nat),
        "- rounds used: "@ + decimal(num_or(member(s, "rounds_in_batch"@), 0) as nat) + " / "@ + decimal(budget as nat),
        Seq::empty(),
    ] + seq!["## Queue"@] + queue_lines(q) + seq![Seq::empty()];
    let mid = seq!["## Recent rounds"@, Seq::empty()];
    let hl = history_lines(h);
    let tail = seq![Seq::empty()] + friction_lines(items_of(member(s, "friction"@)));
    let p: int = 4 + (match open_round_of(s) {
        Some(r) => round_lines(r).len() as int,
        None => 2int,
    }) + 4 + queue_lines(q).len() + 1;
    assert(head.len() == p);
    assert(state_md_lines(s, budget, at) =~= head + mid + hl + tail);
    assert(hl.len() == 2 + shown_count(h.len(), 12));
    assert((head + mid + hl + tail)[p] == mid[0]);
    assert((head + mid + hl + tail)[p + 4 + i] == hl[2 + i]);
}

/// `STATE.md` shows no more than those rounds: after the rows it lists comes
/// the blank line that ends the table; with an empty history the table is
/// `_none yet_`.
pub proof fn lemma_state_md_lists_no_other_round(s: JsonV, budget: u64, at: Seq<char>)
    ensures
        ({
            let h = items_of(member(s, "history"@));
            let lines = state_md_lines(s, budget, at);
            let p: int = 4 + (match open_round_of(s) {
                Some(r) => round_lines(r).len() as int,
                None => 2int,
            }) + 4 + queue_lines(items_of(member(s, "queue"@))).len() + 1;
            &&& h.len() > 0 ==> lines[p + 4 + shown_count(h.len(), 12)] == Seq::<char>::empty()
            &&& h.len() == 0 ==> lines[p + 2] == "_none yet_"@
        }),
{
    let h = items_of(member(s, "history"@));
    let q = items_of(member(s, "queue"@));
    let open: Seq<Seq<char>> = match open_round_of(s) {
        Some(r) => round_lines(r),
        None => seq!["## No open round"@, Seq::empty()],
    };
    let head = seq!["# STATE"@, Seq::empty(), "_Generated by otogo at "@ + at + ". Machine copy: goals/STATE.json._"@, Seq::empty()]
        + open + seq![
        "## Batch "@ + decimal(num_or(member(s, "batch"@), 1) as nat),
        "- rounds used: "@ + decimal(num_or(member(s, "rounds_in_batch"@), 0) as nat) + " / "@ + decimal(budget as nat),
        Seq::empty(),
    ] + seq!["## Queue"@] + queue_lines(q) + seq![Seq::empty()];
    let mid = seq!["## Recent rounds"@, Seq::empty()];
    let hl = history_lines(h);
    let tail = seq![Seq::empty()] + friction_lines(items_of(member(s, "friction"@)));
    let p: int = 4 + (match open_round_of(s) {
        Some(r) => round_lines(r).len() as int,
        None => 2int,
    }) + 4 + queue_lines(q).len() + 1;
    assert(head.len() == p);
    assert(state_md_lines(s, budget, at) =~= head + mid + hl + tail);
    if h.len() > 0 {
        assert(hl.len() == 2 + shown_count(h.len(), 12));
        assert((head + mid + hl + tail)[p + 4 + shown_count(h.len(), 12)] == tail[0]);
    } else {
        assert((head + mid + hl + tail)[p + 2] == hl[0]);
    }
}

} // verus!
