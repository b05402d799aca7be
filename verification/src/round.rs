//! The round lifecycle: what each command decides, and what it does to the
//! loop's state. Running commands, reading and writing files, and printing
//! are left to the caller; everything here is a function of its arguments.

use vstd::prelude::*;
use crate::control::{err, Res, LoopError, LAYERS, ESCALATE_LAYERS, starts_with, has_prefix, truncate, truncated};
use crate::goal_loop::{GoalLoop, text_or, num_or, text_field, num_field, padded, decimal_string, open_round_of, command_of, budget_of, no_open_round_message, items_of, shown_count, or_dash, append_texts};
use crate::guard::{Verdict, VerdictV, same_str, globs_of};
use crate::json::{Json, JsonV, member, member2, text_of, u64_of, put_entry, find_key, lemma_view_json, lemma_view_items, lemma_view_entries, view_items, view_entries};
use crate::text::{chars_of, decimal, zero_padded, string_of, texts, lemma_texts, push_text, joined, join, trim, trimmed, white_space, is_white, lex_lt, lex_less, strictly_sorted};

verus! {

/// `s` with every occurrence of `pat` from `i` on replaced by `rep`, scanning
/// left to right without overlaps, as `str::replace` does for a non-empty
/// pattern.
pub open spec fn replaced_from(s: Seq<char>, pat: Seq<char>, rep: Seq<char>, i: int) -> Seq<char>
    decreases s.len() - i,
{
    if i < 0 || i >= s.len() {
        Seq::empty()
    } else if pat.len() > 0 && i + pat.len() <= s.len() && s.subrange(i, i + pat.len()) == pat {
        rep + replaced_from(s, pat, rep, i + pat.len())
    } else {
        seq![s[i]] + replaced_from(s, pat, rep, i + 1)
    }
}

/// `s` with every occurrence of the non-empty `pat` replaced by `rep`.
pub open spec fn replaced(s: Seq<char>, pat: Seq<char>, rep: Seq<char>) -> Seq<char> {
    replaced_from(s, pat, rep, 0)
}

/// The placeholder `{k}`.
pub open spec fn placeholder(k: Seq<char>) -> Seq<char> {
    seq!['{'] + k + seq!['}']
}

/// A template with each placeholder `{k}` replaced by its value, the pairs
/// applied in order.
pub open spec fn substituted(t: Seq<char>, pairs: Seq<(Seq<char>, Seq<char>)>) -> Seq<char>
    decreases pairs.len(),
{
    if pairs.len() == 0 {
        t
    } else {
        replaced(substituted(t, pairs.drop_last()), placeholder(pairs.last().0), pairs.last().1)
    }
}

/// The views of a list of string pairs.
pub open spec fn pair_views(pairs: Seq<(&str, &str)>) -> Seq<(Seq<char>, Seq<char>)> {
    Seq::new(pairs.len(), |i: int| (pairs[i].0@, pairs[i].1@))
}

fn matches_at(s: &Vec<char>, pat: &Vec<char>, i: usize) -> (r: bool)
    requires
        i <= s@.len(),
    ensures
        r == (i + pat@.len() <= s@.len() && s@.subrange(i as int, i + pat@.len()) == pat@),
{
    let sl = s.len();
    if pat.len() > sl - i {
        return false;
    }
    let mut k: usize = 0;
    while k < pat.len()
        invariant
            i + pat@.len() <= s@.len(),
            s@.len() <= usize::MAX,
            k <= pat@.len(),
            forall|j: int| 0 <= j < k ==> s@[i + j] == pat@[j],
        decreases pat@.len() - k,
    {
        if s[i + k] != pat[k] {
            return false;
        }
        k = k + 1;
    }
    assert(s@.subrange(i as int, i + pat@.len()) =~= pat@);
    true
}

/// `s` with every occurrence of the non-empty `pat` replaced by `rep`.
pub fn replace_all(s: &str, pat: &str, rep: &str) -> (r: String)
    requires
        pat@.len() > 0,
    ensures
        r@ == replaced(s@, pat@, rep@),
{
    let cs = chars_of(s);
    let ps = chars_of(pat);
    let n = cs.len();
    let mut out = String::new();
    let mut i: usize = 0;
    while i < n
        invariant
            cs@ == s@,
            ps@ == pat@,
            pat@.len() > 0,
            n == s@.len(),
            i <= n,
            out@ + replaced_from(s@, pat@, rep@, i as int) == replaced(s@, pat@, rep@),
        decreases n - i,
    {
        if matches_at(&cs, &ps, i) {
            let ghost before = out@;
            out.append(rep);
            proof {
                assert(before + replaced_from(s@, pat@, rep@, i as int) =~= out@ + replaced_from(
                    s@,
                    pat@,
                    rep@,
                    i + pat@.len(),
                ));
            }
            i = i + ps.len();
        } else {
            let ghost before = out@;
            let mut one: Vec<char> = Vec::new();
            one.push(cs[i]);
            out.append(string_of(&one).as_str());
            proof {
                assert(before + replaced_from(s@, pat@, rep@, i as int) =~= out@ + replaced_from(
                    s@,
                    pat@,
                    rep@,
                    i + 1,
                ));
            }
            i = i + 1;
        }
    }
    proof {
        assert(replaced_from(s@, pat@, rep@, n as int) =~= Seq::<char>::empty());
        assert(out@ + Seq::<char>::empty() =~= out@);
    }
    out
}

/// A template with each `{key}` replaced by its value, the pairs applied in
/// order — how a configured command receives the request, its output
/// directory and the round's directory.
pub fn subst(tmpl: &str, pairs: &[(&str, &str)]) -> (r: String)
    ensures
        r@ == substituted(tmpl@, pair_views(pairs@)),
{
    let mut s = tmpl.to_string();
    let n = pairs.len();
    proof {
        assert(pair_views(pairs@).take(0) =~= Seq::<(Seq<char>, Seq<char>)>::empty());
    }
    for i in 0..n
        invariant
            n == pairs@.len(),
            s@ == substituted(tmpl@, pair_views(pairs@).take(i as int)),
    {
        let (k, v) = pairs[i];
        let mut p = "{".to_string();
        p.append(k);
        p.append("}");
        proof {
            reveal_strlit("{");
            reveal_strlit("}");
            assert(p@ =~= placeholder(k@));
            assert(pair_views(pairs@).take(i + 1).drop_last() =~= pair_views(pairs@).take(i as int));
            assert(pair_views(pairs@).take(i + 1).last() == (k@, v@));
        }
        s = replace_all(s.as_str(), p.as_str(), v);
    }
    proof {
        assert(pair_views(pairs@).take(n as int) =~= pair_views(pairs@));
    }
    s
}


/// `s` with member `k` set to `v` (replaced in place, or appended).
pub open spec fn with_member(s: JsonV, k: Seq<char>, v: JsonV) -> JsonV {
    JsonV::Object(put_entry(fields_of(s), k, v))
}

/// The entries of an object; nothing for any other value.
pub open spec fn fields_of(s: JsonV) -> Seq<(Seq<char>, JsonV)> {
    match s {
        JsonV::Object(es) => es,
        _ => Seq::empty(),
    }
}

/// A value that members can be set on: an object, or `null`, which setting a
/// member turns into an object.
pub open spec fn settable(s: JsonV) -> bool {
    s is Object || s is Null
}

/// `s` with `item` appended to its list member `k`.
pub open spec fn with_pushed(s: JsonV, k: Seq<char>, item: JsonV) -> JsonV {
    with_member(s, k, JsonV::Array(items_of(member(s, k)).push(item)))
}

/// What member `k` of `j` holds, or `null`.
pub open spec fn member_or_null(j: JsonV, k: Seq<char>) -> JsonV {
    match member(j, k) {
        Some(x) => x,
        None => JsonV::Null,
    }
}

/// A state the commands can record into: an object whose history is a list.
pub open spec fn recordable(s: JsonV) -> bool {
    &&& s is Object
    &&& member(s, "history"@) matches Some(JsonV::Array(_))
}

/// A JSON number for `n`.
pub open spec fn jnum(n: nat) -> JsonV {
    JsonV::Number(decimal(n))
}

/// An object with the given entries.
pub open spec fn jobj(es: Seq<(Seq<char>, JsonV)>) -> JsonV {
    JsonV::Object(es)
}

/// The value of member `k` of `j`, copied, or `null`.
fn member_copy(j: &Json, k: &str) -> (r: Json)
    ensures
        r@ == member_or_null(j@, k@),
{
    match j.get(k) {
        Some(v) => v.copy(),
        None => Json::Null,
    }
}

/// A copy of the list member `k` of `j` with `item` appended.
fn pushed_items(j: &Json, k: &str, item: Json) -> (r: Json)
    ensures
        r@ == JsonV::Array(items_of(member(j@, k@)).push(item@)),
{
    let mut out: Vec<Json> = Vec::new();
    match j.get(k) {
        Some(v) => match v.as_array() {
            Some(items) => {
                proof {
                    lemma_view_items(items@);
                }
                let n = items.len();
                for i in 0..n
                    invariant
                        n == items@.len(),
                        view_items(items@).len() == n,
                        forall|m: int| 0 <= m < n ==> #[trigger] view_items(items@)[m] == items@[m]@,
                        view_items(out@) == view_items(items@).take(i as int),
                {
                    let ghost before = out@;
                    out.push(items[i].copy());
                    proof {
                        assert(out@.drop_last() == before);
                        assert(view_items(out@) =~= view_items(items@).take(i + 1));
                    }
                }
                proof {
                    assert(view_items(items@).take(n as int) =~= view_items(items@));
                }
            },
            None => {
                proof {
                    lemma_view_json(*v);
                    assert(view_items(out@) =~= Seq::<JsonV>::empty());
                }
            },
        },
        None => {
            proof {
                assert(view_items(out@) =~= Seq::<JsonV>::empty());
            }
        },
    }
    let ghost before = out@;
    out.push(item);
    proof {
        assert(out@.drop_last() == before);
    }
    Json::Array(out)
}

/// An object built from entries.
fn obj(es: Vec<(String, Json)>) -> (r: Json)
    ensures
        r@ == JsonV::Object(view_entries(es@)),
{
    Json::Object(es)
}

fn pair(k: &str, v: Json) -> (r: (String, Json))
    ensures
        r.0@ == k@,
        r.1 == v,
{
    (k.to_string(), v)
}

proof fn lemma_entries(es: Seq<(String, Json)>)
    ensures
        view_entries(es) == Seq::new(es.len(), |i: int| (es[i].0@, es[i].1@)),
{
    lemma_view_entries(es);
    assert(view_entries(es) =~= Seq::new(es.len(), |i: int| (es[i].0@, es[i].1@)));
}

impl GoalLoop {
    /// Sets member `k` of the state to `v`; a `null` state becomes an object
    /// holding just that member.
    pub fn put_state(&mut self, k: &str, v: Json)
        requires
            settable(old(self).state@),
        ensures
            final(self).state@ == with_member(old(self).state@, k@, v@),
            final(self).config == old(self).config,
            final(self).root == old(self).root,
    {
        self.make_object();
        self.state.set(k, v);
    }

    /// Appends `item` to the state's list member `k`.
    pub fn push_state(&mut self, k: &str, item: Json)
        requires
            settable(old(self).state@),
        ensures
            final(self).state@ == with_pushed(old(self).state@, k@, item@),
            final(self).config == old(self).config,
            final(self).root == old(self).root,
    {
        let list = pushed_items(&self.state, k, item);
        self.make_object();
        self.state.set(k, list);
    }

    /// Turns a `null` state into an empty object; leaves any other as it is.
    fn make_object(&mut self)
        requires
            settable(old(self).state@),
        ensures
            final(self).state@ == JsonV::Object(fields_of(old(self).state@)),
            final(self).config == old(self).config,
            final(self).root == old(self).root,
    {
        proof {
            lemma_view_json(self.state);
        }
        if let Json::Null = self.state {
            self.state = Json::Object(Vec::new());
            proof {
                lemma_view_json(self.state);
                lemma_view_entries(Seq::<(String, Json)>::empty());
                assert(view_entries(Seq::<(String, Json)>::empty()) =~= Seq::<(Seq<char>, JsonV)>::empty());
            }
        }
    }
}

/// Why a round cannot open now: one is still open, or the batch is spent and
/// the opening is not forced.
pub open spec fn open_refusal(s: JsonV, budget: u64, force: bool) -> Option<Seq<char>> {
    match open_round_of(s) {
        Some(r) => Some(
            "round "@ + zero_padded(num_or(member(r, "n"@), 0) as nat, 3)
                + " is still open. Close it with `otogo close --outcome ...` or `otogo abort`."@,
        ),
        None => {
            let used = num_or(member(s, "rounds_in_batch"@), 0);
            if used >= budget && !force {
                Some(
                    "batch "@ + decimal(num_or(member(s, "batch"@), 1) as nat) + " is spent ("@ + decimal(used as nat)
                        + "/"@ + decimal(budget as nat)
                        + " rounds).\nA person decides at the boundary: continue the queue, redirect the next\nbatch, or stop. Run `otogo batch --continue|--redirect \"...\"|--stop`."@,
                )
            } else {
                None
            }
        },
    }
}

/// The round record a new round starts with.
pub open spec fn opened_record(n: u64, stem: Seq<char>, rel: Seq<char>, at: Seq<char>, world: Seq<char>, floor: Seq<char>) -> JsonV {
    jobj(
        seq![
            ("n"@, jnum(n as nat)),
            ("request"@, JsonV::Str(stem)),
            ("request_file"@, JsonV::Str(rel)),
            ("opened"@, JsonV::Str(at)),
            ("phase"@, JsonV::Str("opened"@)),
            ("world"@, JsonV::Str(world)),
            ("floor"@, JsonV::Str(floor)),
            ("gap"@, JsonV::Null),
            ("layer"@, JsonV::Null),
        ],
    )
}

/// What history records of a round opened on an unhealthy world: no score.
pub open spec fn no_score_entry(n: u64, stem: Seq<char>, at: Seq<char>) -> JsonV {
    jobj(
        seq![
            ("n"@, jnum(n as nat)),
            ("request"@, JsonV::Str(stem)),
            ("layer"@, JsonV::Str("world"@)),
            ("gap"@, JsonV::Str("world unhealthy"@)),
            ("outcome"@, JsonV::Str("no_score"@)),
            ("closed"@, JsonV::Str(at)),
        ],
    )
}

impl GoalLoop {
    /// Whether a round may open: not while one is open, and not past the
    /// batch budget unless forced.
    pub fn check_open(&self, force: bool) -> (r: Res<()>)
        ensures
            match open_refusal(self.state@, budget_of(self.config@), force) {
                Some(m) => r matches Err(e) && e.0@ == m,
                None => r is Ok,
            },
    {
        match self.open_round() {
            Ok(r) => {
                let mut m = "round ".to_string();
                m.append(padded(num_field(r, "n", 0), 3).as_str());
                m.append(" is still open. Close it with `otogo close --outcome ...` or `otogo abort`.");
                err(m)
            },
            Err(_) => {
                let budget = self.budget();
                let used = num_field(&self.state, "rounds_in_batch", 0);
                if used >= budget && !force {
                    let mut m = "batch ".to_string();
                    m.append(decimal_string(num_field(&self.state, "batch", 1)).as_str());
                    m.append(" is spent (");
                    m.append(decimal_string(used).as_str());
                    m.append("/");
                    m.append(decimal_string(budget).as_str());
                    m.append(
                        " rounds).\nA person decides at the boundary: continue the queue, redirect the next\nbatch, or stop. Run `otogo batch --continue|--redirect \"...\"|--stop`.",
                    );
                    err(m)
                } else {
                    Ok(())
                }
            },
        }
    }

    /// Opens round `n` on request `stem` (file `rel`), at `at`, with the
    /// world and floor as preflight and the floor found them.
    pub fn begin_round(&mut self, n: u64, stem: &str, rel: &str, at: &str, world: &str, floor: &str)
        requires
            settable(old(self).state@),
        ensures
            final(self).state@ == with_member(old(self).state@, "open_round"@, opened_record(n, stem@, rel@, at@, world@, floor@)),
            final(self).config == old(self).config,
            final(self).root == old(self).root,
    {
        let mut es: Vec<(String, Json)> = Vec::new();
        es.push(pair("n", Json::num(n)));
        es.push(pair("request", Json::text(stem)));
        es.push(pair("request_file", Json::text(rel)));
        es.push(pair("opened", Json::text(at)));
        es.push(pair("phase", Json::text("opened")));
        es.push(pair("world", Json::text(world)));
        es.push(pair("floor", Json::text(floor)));
        es.push(pair("gap", Json::Null));
        es.push(pair("layer", Json::Null));
        proof {
            lemma_entries(es@);
            lemma_view_json(Json::Null);
            assert(view_entries(es@) =~= opened_record(n, stem@, rel@, at@, world@, floor@)->Object_0);
        }
        self.put_state("open_round", obj(es));
    }

    /// An unhealthy world is not a round: the evidence stays, the round is
    /// dropped, and history records that it scored nothing.
    pub fn drop_unhealthy_round(&mut self, n: u64, stem: &str, at: &str)
        requires
            recordable(old(self).state@),
        ensures
            final(self).state@ == with_pushed(
                with_member(old(self).state@, "open_round"@, JsonV::Null),
                "history"@,
                no_score_entry(n, stem@, at@),
            ),
            final(self).config == old(self).config,
            final(self).root == old(self).root,
    {
        self.put_state("open_round", Json::Null);
        let mut es: Vec<(String, Json)> = Vec::new();
        es.push(pair("n", Json::num(n)));
        es.push(pair("request", Json::text(stem)));
        es.push(pair("layer", Json::text("world")));
        es.push(pair("gap", Json::text("world unhealthy")));
        es.push(pair("outcome", Json::text("no_score")));
        es.push(pair("closed", Json::text(at)));
        proof {
            lemma_entries(es@);
            lemma_view_json(Json::Null);
            assert(view_entries(es@) =~= no_score_entry(n, stem@, at@)->Object_0);
        }
        self.push_state("history", obj(es));
    }
}


/// Whether the state can be recorded into.
pub fn is_recordable(state: &Json) -> (r: bool)
    ensures
        r == recordable(state@),
{
    proof {
        lemma_view_json(*state);
    }
    match state {
        Json::Object(_) => match state.get("history") {
            Some(h) => {
                proof {
                    lemma_view_json(*h);
                }
                match h {
                    Json::Array(_) => true,
                    _ => false,
                }
            },
            None => false,
        },
        _ => false,
    }
}

/// Whether `l` names a layer.
pub open spec fn known_layer(l: Seq<char>) -> bool {
    exists|i: int| 0 <= i < LAYERS@.len() && LAYERS@[i]@ == l
}

/// The layers' names, in order.
pub open spec fn layer_names() -> Seq<Seq<char>> {
    Seq::new(LAYERS@.len(), |i: int| LAYERS@[i]@)
}

/// The refusal of an unknown layer, listing the known ones.
pub open spec fn unknown_layer_message(l: Seq<char>) -> Seq<char> {
    "unknown layer '"@ + l + "'. One of: "@ + joined(layer_names(), ", "@)
}

/// Whether `l` is a layer whose gap is not a product round: the round stops
/// and a person decides.
pub open spec fn escalates(l: Seq<char>) -> bool {
    exists|i: int| 0 <= i < ESCALATE_LAYERS@.len() && ESCALATE_LAYERS@[i]@ == l
}

/// Whether `layer` names a layer.
pub fn is_layer(layer: &str) -> (r: bool)
    ensures
        r == known_layer(layer@),
{
    let mut i: usize = 0;
    while i < 7
        invariant
            i <= 7,
            LAYERS@.len() == 7,
            forall|j: int| 0 <= j < i ==> LAYERS@[j]@ != layer@,
        decreases 7 - i,
    {
        let d: &str = LAYERS[i];
        if same_str(d, layer) {
            proof {
                assert(LAYERS@[i as int]@ == layer@);
            }
            return true;
        }
        i = i + 1;
    }
    false
}

/// Whether a gap in `layer` stops the round for a person.
pub fn is_escalation(layer: &str) -> (r: bool)
    ensures
        r == escalates(layer@),
{
    let mut i: usize = 0;
    while i < 2
        invariant
            i <= 2,
            ESCALATE_LAYERS@.len() == 2,
            forall|j: int| 0 <= j < i ==> ESCALATE_LAYERS@[j]@ != layer@,
        decreases 2 - i,
    {
        let d: &str = ESCALATE_LAYERS[i];
        if same_str(d, layer) {
            proof {
                assert(ESCALATE_LAYERS@[i as int]@ == layer@);
            }
            return true;
        }
        i = i + 1;
    }
    false
}

fn layers_text() -> (r: String)
    ensures
        r@ == joined(layer_names(), ", "@),
{
    let mut v: Vec<String> = Vec::new();
    for i in 0..7
        invariant
            LAYERS@.len() == 7,
            texts(v@) == layer_names().take(i as int),
    {
        push_text(&mut v, LAYERS[i].to_string());
        proof {
            assert(texts(v@) =~= layer_names().take(i + 1));
        }
    }
    proof {
        assert(layer_names().take(7) =~= layer_names());
    }
    join(&v, ", ")
}

/// The open round with member `k` set to `v`.
pub open spec fn round_with(s: JsonV, k: Seq<char>, v: JsonV) -> JsonV {
    with_member(s, "open_round"@, with_member(open_round_of(s)->0, k, v))
}

/// The classification a round's gap receives.
pub open spec fn classified(s: JsonV, layer: Seq<char>, gap: Seq<char>) -> JsonV {
    round_with(
        round_with(round_with(s, "layer"@, JsonV::Str(layer)), "gap"@, JsonV::Str(gap)),
        "phase"@,
        JsonV::Str("classified"@),
    )
}

impl GoalLoop {
    /// Sets member `k` of the open round to `v`.
    pub fn set_round_field(&mut self, k: &str, v: Json) -> (r: Res<()>)
        ensures
            match open_round_of(old(self).state@) {
                Some(_) => r is Ok && final(self).state@ == round_with(old(self).state@, k@, v@),
                None => r matches Err(e) && e.0@ == no_open_round_message() && final(self).state == old(self).state,
            },
            final(self).config == old(self).config,
            final(self).root == old(self).root,
    {
        match self.open_round() {
            Ok(r) => {
                let mut round = r.copy();
                proof {
                    lemma_view_json(round);
                    lemma_view_json(self.state);
                }
                round.set(k, v);
                self.put_state("open_round", round);
                Ok(())
            },
            Err(e) => Err(e),
        }
    }

    /// Records the round's phase.
    pub fn set_phase(&mut self, phase: &str) -> (r: Res<()>)
        ensures
            match open_round_of(old(self).state@) {
                Some(_) => r is Ok && final(self).state@ == round_with(old(self).state@, "phase"@, JsonV::Str(phase@)),
                None => r matches Err(e) && e.0@ == no_open_round_message() && final(self).state == old(self).state,
            },
            final(self).config == old(self).config,
            final(self).root == old(self).root,
    {
        self.set_round_field("phase", Json::text(phase))
    }

    /// Names the round's largest gap and the layer it lives in, and returns
    /// the round's number. An unknown layer is refused before anything else.
    pub fn classify(&mut self, layer: &str, gap: &str) -> (r: Res<u64>)
        ensures
            !known_layer(layer@) ==> (r matches Err(e) && e.0@ == unknown_layer_message(layer@) && final(self).state
                == old(self).state),
            known_layer(layer@) ==> match open_round_of(old(self).state@) {
                Some(o) => r == Ok::<u64, LoopError>(num_or(member(o, "n"@), 0)) && final(self).state@ == classified(
                    old(self).state@,
                    layer@,
                    gap@,
                ),
                None => r matches Err(e) && e.0@ == no_open_round_message() && final(self).state == old(self).state,
            },
            final(self).config == old(self).config,
            final(self).root == old(self).root,
    {
        if !is_layer(layer) {
            let mut m = "unknown layer '".to_string();
            m.append(layer);
            m.append("'. One of: ");
            m.append(layers_text().as_str());
            return err(m);
        }
        let n = match self.open_round() {
            Ok(r) => num_field(r, "n", 0),
            Err(e) => {
                return Err(e);
            },
        };
        let ghost s0 = self.state@;
        let _ = self.set_round_field("layer", Json::text(layer));
        proof {
            assert(open_round_of(self.state@) is Some) by {
                crate::json::lemma_put_entry(s0->Object_0, "open_round"@, with_member(open_round_of(s0)->0, "layer"@, JsonV::Str(layer@)), "open_round"@);
            }
        }
        let ghost s1 = self.state@;
        let _ = self.set_round_field("gap", Json::text(gap));
        proof {
            assert(open_round_of(self.state@) is Some) by {
                crate::json::lemma_put_entry(s1->Object_0, "open_round"@, with_member(open_round_of(s1)->0, "gap"@, JsonV::Str(gap@)), "open_round"@);
            }
        }
        let _ = self.set_phase("classified");
        Ok(n)
    }
}


/// `es` with each of `more` set in turn.
pub open spec fn put_all(es: Seq<(Seq<char>, JsonV)>, more: Seq<(Seq<char>, JsonV)>) -> Seq<(Seq<char>, JsonV)>
    decreases more.len(),
{
    if more.len() == 0 {
        es
    } else {
        put_entry(put_all(es, more.drop_last()), more.last().0, more.last().1)
    }
}

/// What history records of a closed round.
pub open spec fn close_entry(r: JsonV, outcome: Seq<char>, at: Seq<char>, v: VerdictV) -> JsonV {
    jobj(
        seq![
            ("n"@, jnum(num_or(member(r, "n"@), 0) as nat)),
            ("request"@, member_or_null(r, "request"@)),
            ("layer"@, member_or_null(r, "layer"@)),
            ("gap"@, member_or_null(r, "gap"@)),
            ("outcome"@, JsonV::Str(outcome)),
            ("closed"@, JsonV::Str(at)),
            ("world"@, member_or_null(r, "world"@)),
            ("floor_before"@, member_or_null(r, "floor"@)),
            ("floor_after"@, member_or_null(r, "floor_after"@)),
            ("rungs_added"@, crate::guard::text_array(v.appended_measures)),
            ("files_changed"@, jnum(v.changed_free.len())),
        ],
    )
}

/// The refusal of a close that authority violations block.
pub open spec fn violations_block_message() -> Seq<char> {
    "authority violations block the close. Revert the frozen changes, or record them as a proposal for a person to decide."@
}

/// The refusal of a close over a red floor.
pub open spec fn red_floor_message() -> Seq<char> {
    "the floor is red. A round does not close over a regression."@
}

/// Why a round cannot close: none is open; it crossed a boundary; or its
/// floor went red — the last two unless forced.
pub open spec fn close_refusal(s: JsonV, v: VerdictV, force: bool) -> Option<Seq<char>> {
    match open_round_of(s) {
        None => Some(no_open_round_message()),
        Some(r) => if v.violations.len() > 0 && !force {
            Some(violations_block_message())
        } else if text_or(member(r, "floor_after"@), ""@) == "red"@ && !force {
            Some(red_floor_message())
        } else {
            None
        },
    }
}

/// The rounds a batch has spent.
pub open spec fn used_of(s: JsonV) -> u64 {
    num_or(member(s, "rounds_in_batch"@), 0)
}

/// The state once a round has closed with history entry `entry`: recorded,
/// counted against the batch, and no longer open.
pub open spec fn closed_state(s: JsonV, entry: JsonV) -> JsonV {
    with_member(
        with_member(with_pushed(s, "history"@, entry), "rounds_in_batch"@, jnum((used_of(s) + 1) as nat)),
        "open_round"@,
        JsonV::Null,
    )
}

/// What history records of an aborted round.
pub open spec fn abort_entry(r: JsonV, reason: Seq<char>, at: Seq<char>) -> JsonV {
    jobj(
        seq![
            ("n"@, jnum(num_or(member(r, "n"@), 0) as nat)),
            ("request"@, member_or_null(r, "request"@)),
            ("layer"@, member_or_null(r, "layer"@)),
            ("gap"@, member_or_null(r, "gap"@)),
            ("outcome"@, JsonV::Str("aborted: "@ + reason)),
            ("closed"@, JsonV::Str(at)),
        ],
    )
}

/// The state once a round is aborted: no longer open, and recorded without
/// counting against the batch.
pub open spec fn aborted_state(s: JsonV, entry: JsonV) -> JsonV {
    with_pushed(with_member(s, "open_round"@, JsonV::Null), "history"@, entry)
}

impl GoalLoop {
    /// Closes the open round with `outcome` at `at`, given the authority
    /// verdict on what it changed. Returns the round's full record (the round
    /// with its history entry merged in) and the rounds now spent in the
    /// batch.
    pub fn close_round(&mut self, outcome: &str, v: &Verdict, force: bool, at: &str) -> (r: Res<(Json, u64)>)
        requires
            close_refusal(old(self).state@, v@, force) is None ==> recordable(old(self).state@) && used_of(old(self).state@)
                < u64::MAX,
        ensures
            match close_refusal(old(self).state@, v@, force) {
                Some(m) => r matches Err(e) && e.0@ == m && final(self).state == old(self).state,
                None => {
                    let o = open_round_of(old(self).state@)->0;
                    let entry = close_entry(o, outcome@, at@, v@);
                    &&& r matches Ok(x) && x.0@ == JsonV::Object(put_all(o->Object_0, entry->Object_0)) && x.1 == used_of(
                        old(self).state@,
                    ) + 1
                    &&& final(self).state@ == closed_state(old(self).state@, entry)
                },
            },
            final(self).config == old(self).config,
            final(self).root == old(self).root,
    {
        let round = match self.open_round() {
            Ok(r) => r.copy(),
            Err(e) => {
                return Err(e);
            },
        };
        proof {
            lemma_view_json(round);
        }
        if !v.ok() && !force {
            return err(
                "authority violations block the close. Revert the frozen changes, or record them as a proposal for a person to decide.".to_string(),
            );
        }
        let floor_after = text_field(&round, "floor_after", "");
        if same_str(floor_after.as_str(), "red") && !force {
            return err("the floor is red. A round does not close over a regression.".to_string());
        }
        let mut es: Vec<(String, Json)> = Vec::new();
        es.push(pair("n", Json::num(num_field(&round, "n", 0))));
        es.push(pair("request", member_copy(&round, "request")));
        es.push(pair("layer", member_copy(&round, "layer")));
        es.push(pair("gap", member_copy(&round, "gap")));
        es.push(pair("outcome", Json::text(outcome)));
        es.push(pair("closed", Json::text(at)));
        es.push(pair("world", member_copy(&round, "world")));
        es.push(pair("floor_before", member_copy(&round, "floor")));
        es.push(pair("floor_after", member_copy(&round, "floor_after")));
        es.push(pair("rungs_added", crate::guard::texts_json(&v.appended_measures)));
        proof {
            lemma_texts(v.changed_free@);
        }
        es.push(pair("files_changed", Json::num(v.changed_free.len() as u64)));
        proof {
            lemma_entries(es@);
        }
        let ghost ev = close_entry(round@, outcome@, at@, v@);
        proof {
            assert(view_entries(es@) =~= ev->Object_0);
        }
        let mut merged = round.copy();
        let n = es.len();
        proof {
            assert(ev->Object_0.take(0) =~= Seq::<(Seq<char>, JsonV)>::empty());
        }
        for i in 0..n
            invariant
                n == es@.len(),
                view_entries(es@) == ev->Object_0,
                merged@ == JsonV::Object(put_all(round@->Object_0, ev->Object_0.take(i as int))),
        {
            let (k, x) = (&es[i].0, es[i].1.copy());
            proof {
                lemma_view_entries(es@);
                assert(ev->Object_0.take(i + 1).drop_last() =~= ev->Object_0.take(i as int));
                assert(ev->Object_0.take(i + 1).last() == ev->Object_0[i as int]);
            }
            merged.set(k.as_str(), x);
        }
        proof {
            assert(ev->Object_0.take(n as int) =~= ev->Object_0);
        }
        let entry = obj(es);
        let used = num_field(&self.state, "rounds_in_batch", 0) + 1;
        self.push_state("history", entry);
        self.put_state("rounds_in_batch", Json::num(used));
        self.put_state("open_round", Json::Null);
        proof {
            lemma_view_json(Json::Null);
        }
        Ok((merged, used))
    }

    /// Whether the open round may close: refused when none is open, when it
    /// crossed a boundary, or when its floor went red — the last two unless
    /// forced.
    pub fn check_close(&self, v: &Verdict, force: bool) -> (r: Res<()>)
        ensures
            match close_refusal(self.state@, v@, force) {
                Some(m) => r matches Err(e) && e.0@ == m,
                None => r is Ok,
            },
    {
        let round = match self.open_round() {
            Ok(r) => r,
            Err(e) => {
                return Err(e);
            },
        };
        if !v.ok() && !force {
            return err(
                "authority violations block the close. Revert the frozen changes, or record them as a proposal for a person to decide.".to_string(),
            );
        }
        let floor_after = text_field(round, "floor_after", "");
        if same_str(floor_after.as_str(), "red") && !force {
            return err("the floor is red. A round does not close over a regression.".to_string());
        }
        Ok(())
    }

    /// Ends the open round without counting it as progress; its evidence is
    /// kept. Returns the round's number.
    pub fn abort_round(&mut self, reason: &str, at: &str) -> (r: Res<u64>)
        requires
            open_round_of(old(self).state@) is Some ==> recordable(old(self).state@),
        ensures
            match open_round_of(old(self).state@) {
                None => r matches Err(e) && e.0@ == no_open_round_message() && final(self).state == old(self).state,
                Some(o) => r == Ok::<u64, LoopError>(num_or(member(o, "n"@), 0)) && final(self).state@ == aborted_state(
                    old(self).state@,
                    abort_entry(o, reason@, at@),
                ),
            },
            final(self).config == old(self).config,
            final(self).root == old(self).root,
    {
        let round = match self.open_round() {
            Ok(r) => r.copy(),
            Err(e) => {
                return Err(e);
            },
        };
        let n = num_field(&round, "n", 0);
        self.put_state("open_round", Json::Null);
        let mut m = "aborted: ".to_string();
        m.append(reason);
        let mut es: Vec<(String, Json)> = Vec::new();
        es.push(pair("n", Json::num(n)));
        es.push(pair("request", member_copy(&round, "request")));
        es.push(pair("layer", member_copy(&round, "layer")));
        es.push(pair("gap", member_copy(&round, "gap")));
        es.push(pair("outcome", Json::text(m.as_str())));
        es.push(pair("closed", Json::text(at)));
        proof {
            lemma_entries(es@);
            lemma_view_json(Json::Null);
            assert(view_entries(es@) =~= abort_entry(round@, reason@, at@)->Object_0);
        }
        self.push_state("history", obj(es));
        Ok(n)
    }
}


/// `c` with an ASCII uppercase letter lowered.
pub open spec fn ascii_lower(c: char) -> char {
    if 'A' <= c && c <= 'Z' {
        ((c as u8) + 32) as char
    } else {
        c
    }
}

/// Whether two texts are equal ignoring ASCII case, as
/// `str::eq_ignore_ascii_case` reports.
pub open spec fn same_ignoring_ascii_case(a: Seq<char>, b: Seq<char>) -> bool {
    a.len() == b.len() && forall|i: int| 0 <= i < a.len() ==> ascii_lower(#[trigger] a[i]) == ascii_lower(b[i])
}

/// Whether two friction notes say the same thing: equal once trimmed,
/// ignoring ASCII case.
pub open spec fn same_note(a: Seq<char>, b: Seq<char>) -> bool {
    same_ignoring_ascii_case(trimmed(a), trimmed(b))
}

/// Whether recorded friction `f` has the note `note`.
pub open spec fn notes(f: JsonV, note: Seq<char>) -> bool {
    match text_of(member(f, "note"@)) {
        Some(t) => same_note(t, note),
        None => false,
    }
}

/// The position of the first friction from `i` on with the note `note`.
pub open spec fn first_note_from(items: Seq<JsonV>, note: Seq<char>, i: int) -> Option<int>
    decreases items.len() - i,
{
    if i < 0 || i >= items.len() {
        None
    } else if notes(items[i], note) {
        Some(i)
    } else {
        first_note_from(items, note, i + 1)
    }
}

/// A friction recorded for the first time.
pub open spec fn new_friction(note: Seq<char>, at: Seq<char>) -> JsonV {
    jobj(
        seq![
            ("note"@, JsonV::Str(note)),
            ("count"@, jnum(1)),
            ("first"@, JsonV::Str(at)),
            ("last"@, JsonV::Str(at)),
        ],
    )
}

/// The recorded frictions.
pub open spec fn frictions(s: JsonV) -> Seq<JsonV> {
    items_of(member(s, "friction"@))
}

/// How often the friction `f` has been recorded.
pub open spec fn count_of(f: JsonV) -> u64 {
    num_or(member(f, "count"@), 1)
}

/// A state whose friction can be recorded: an object (or `null`, which
/// becomes one) whose friction, if any, is a list, and a repeated note's
/// count can still grow.
pub open spec fn friction_recordable(s: JsonV, note: Seq<char>) -> bool {
    &&& settable(s)
    &&& match member(s, "friction"@) {
        None => true,
        Some(JsonV::Array(_)) => true,
        _ => false,
    }
    &&& match first_note_from(frictions(s), note, 0) {
        Some(i) => count_of(frictions(s)[i]) < u64::MAX,
        None => true,
    }
}

/// The state once friction `note` is recorded at `at`: a note already
/// recorded (the same once trimmed, ignoring ASCII case) counts once more and
/// is stamped; a new one is appended with a count of one.
pub open spec fn friction_recorded(s: JsonV, note: Seq<char>, at: Seq<char>) -> JsonV {
    let items = frictions(s);
    match first_note_from(items, note, 0) {
        Some(i) => with_member(
            s,
            "friction"@,
            JsonV::Array(
                items.update(
                    i,
                    with_member(with_member(items[i], "count"@, jnum((count_of(items[i]) + 1) as nat)), "last"@, JsonV::Str(at)),
                ),
            ),
        ),
        None => with_member(s, "friction"@, JsonV::Array(items.push(new_friction(note, at)))),
    }
}

/// The count friction `note` has once recorded.
pub open spec fn friction_count(s: JsonV, note: Seq<char>) -> u64 {
    match first_note_from(frictions(s), note, 0) {
        Some(i) => (count_of(frictions(s)[i]) + 1) as u64,
        None => 1,
    }
}

fn lower(c: char) -> (r: char)
    ensures
        r == ascii_lower(c),
{
    if 'A' <= c && c <= 'Z' {
        ((c as u8) + 32) as char
    } else {
        c
    }
}

/// Whether two texts are equal ignoring ASCII case.
pub fn eq_ignore_ascii_case(a: &str, b: &str) -> (r: bool)
    ensures
        r == same_ignoring_ascii_case(a@, b@),
{
    let x = chars_of(a);
    let y = chars_of(b);
    if x.len() != y.len() {
        return false;
    }
    let n = x.len();
    for i in 0..n
        invariant
            x@ == a@,
            y@ == b@,
            n == x@.len(),
            n == y@.len(),
            forall|k: int| 0 <= k < i ==> ascii_lower(#[trigger] a@[k]) == ascii_lower(b@[k]),
    {
        if lower(x[i]) != lower(y[i]) {
            return false;
        }
    }
    true
}

fn is_note(f: &Json, note: &str) -> (r: bool)
    ensures
        r == notes(f@, note@),
{
    match f.get("note") {
        Some(v) => match v.as_str() {
            Some(t) => eq_ignore_ascii_case(trim(t).as_str(), trim(note).as_str()),
            None => false,
        },
        None => false,
    }
}

/// A copy of the list member `k` of `j`.
fn items_copy(j: &Json, k: &str) -> (r: Vec<Json>)
    ensures
        view_items(r@) == items_of(member(j@, k@)),
{
    let mut list: Vec<Json> = Vec::new();
    match j.get(k) {
        Some(v) => match v.as_array() {
            Some(a) => {
                proof {
                    lemma_view_items(a@);
                }
                let ghost items = view_items(a@);
                for i in 0..a.len()
                    invariant
                        view_items(a@) == items,
                        items.len() == a@.len(),
                        forall|m: int| 0 <= m < a@.len() ==> #[trigger] items[m] == a@[m]@,
                        view_items(list@) == items.take(i as int),
                {
                    let ghost before = list@;
                    list.push(a[i].copy());
                    proof {
                        assert(list@.drop_last() == before);
                        assert(view_items(list@) =~= items.take(i + 1));
                    }
                }
                proof {
                    assert(items.take(a@.len() as int) =~= items);
                }
            },
            None => {
                proof {
                    lemma_view_json(*v);
                    assert(view_items(list@) =~= Seq::<JsonV>::empty());
                }
            },
        },
        None => {
            proof {
                assert(view_items(list@) =~= Seq::<JsonV>::empty());
            }
        },
    }
    list
}

proof fn lemma_first_note_from(items: Seq<JsonV>, note: Seq<char>, k: int)
    requires
        0 <= k,
    ensures
        first_note_from(items, note, k) matches Some(i) ==> k <= i < items.len() && notes(items[i], note),
    decreases items.len() - k,
{
    if k < items.len() && !notes(items[k], note) {
        lemma_first_note_from(items, note, k + 1);
    }
}

/// The position of the first friction with the note `note`.
fn find_note(list: &Vec<Json>, note: &str) -> (r: Option<usize>)
    ensures
        match first_note_from(view_items(list@), note@, 0) {
            Some(i) => r == Some(i as usize),
            None => r is None,
        },
{
    proof {
        lemma_view_items(list@);
    }
    let ghost items = view_items(list@);
    let n = list.len();
    let mut i: usize = 0;
    while i < n
        invariant
            n == list@.len(),
            i <= n,
            items == view_items(list@),
            items.len() == n,
            forall|m: int| 0 <= m < n ==> #[trigger] items[m] == list@[m]@,
            first_note_from(items, note@, 0) == first_note_from(items, note@, i as int),
        decreases n - i,
    {
        if is_note(&list[i], note) {
            return Some(i);
        }
        i = i + 1;
    }
    None
}

/// Counts friction `i` once more and stamps it with `at`; returns its new
/// count.
fn bump_friction(list: &mut Vec<Json>, i: usize, at: &str) -> (r: u64)
    requires
        i < old(list)@.len(),
        count_of(old(list)@[i as int]@) < u64::MAX,
        old(list)@[i as int]@ is Object,
    ensures
        view_items(final(list)@) == view_items(old(list)@).update(
            i as int,
            with_member(
                with_member(old(list)@[i as int]@, "count"@, jnum((count_of(old(list)@[i as int]@) + 1) as nat)),
                "last"@,
                JsonV::Str(at@),
            ),
        ),
        r == count_of(old(list)@[i as int]@) + 1,
{
    let ghost before = list@;
    let mut f = list[i].copy();
    let c = num_field(&f, "count", 1) + 1;
    f.set("count", Json::num(c));
    f.set("last", Json::text(at));
    let ghost fv = f@;
    list.set(i, f);
    proof {
        lemma_view_items(list@);
        lemma_view_items(before);
        assert(view_items(list@) =~= view_items(before).update(i as int, fv));
    }
    c
}

impl GoalLoop {
    /// Records what cost time this round. Returns how often the note has now
    /// been recorded: one is evidence, more earns a harness change.
    #[verifier::rlimit(40)]
    pub fn record_friction(&mut self, note: &str, at: &str) -> (r: u64)
        requires
            friction_recordable(old(self).state@, note@),
        ensures
            final(self).state@ == friction_recorded(old(self).state@, note@, at@),
            r == friction_count(old(self).state@, note@),
            final(self).config == old(self).config,
            final(self).root == old(self).root,
    {
        let ghost items = frictions(self.state@);
        let mut list = items_copy(&self.state, "friction");
        proof {
            lemma_view_items(list@);
            lemma_first_note_from(items, note@, 0);
        }
        let _len = list.len();
        match find_note(&list, note) {
            Some(i) => {
                proof {
                    assert(first_note_from(items, note@, 0) is Some);
                    assert(items[i as int] == list@[i as int]@);
                }
                let c = bump_friction(&mut list, i, at);
                self.put_state("friction", Json::Array(list));
                c
            },
            None => {
                let mut es: Vec<(String, Json)> = Vec::new();
                es.push(pair("note", Json::text(note)));
                es.push(pair("count", Json::num(1)));
                es.push(pair("first", Json::text(at)));
                es.push(pair("last", Json::text(at)));
                proof {
                    lemma_entries(es@);
                    assert(view_entries(es@) =~= new_friction(note@, at@)->Object_0);
                }
                let ghost before = list@;
                list.push(obj(es));
                proof {
                    assert(list@.drop_last() == before);
                }
                self.put_state("friction", Json::Array(list));
                1
            },
        }
    }
}

/// The pieces of `s` between the separators `c` from `i` on, as `str::split`
/// gives them.
pub open spec fn split_from(s: Seq<char>, c: char, i: int) -> Seq<Seq<char>>
    decreases s.len() - i,
{
    if i < 0 || i > s.len() {
        Seq::empty()
    } else {
        proof {
            crate::text::lemma_next_char(s, c, i);
        }
        let e = crate::text::next_char(s, c, i);
        if e >= s.len() {
            seq![s.subrange(i, s.len() as int)]
        } else {
            seq![s.subrange(i, e)] + split_from(s, c, e + 1)
        }
    }
}

/// The non-empty trimmed pieces among `ps`, in order.
pub open spec fn kept(ps: Seq<Seq<char>>) -> Seq<Seq<char>>
    decreases ps.len(),
{
    if ps.len() == 0 {
        Seq::empty()
    } else if trimmed(ps.last()).len() > 0 {
        kept(ps.drop_last()).push(trimmed(ps.last()))
    } else {
        kept(ps.drop_last())
    }
}

/// The queue a redirect names: its `;`-separated entries, trimmed, empty
/// ones dropped.
pub open spec fn queue_of(q: Seq<char>) -> Seq<Seq<char>> {
    kept(split_from(q, ';', 0))
}

/// The current batch number.
pub open spec fn batch_of(s: JsonV) -> u64 {
    num_or(member(s, "batch"@), 1)
}

/// The state once a person stops the loop at `at` for `reason`.
pub open spec fn stopped_state(s: JsonV, reason: Seq<char>, at: Seq<char>) -> JsonV {
    with_member(s, "stopped"@, jobj(seq![("at"@, JsonV::Str(at)), ("reason"@, JsonV::Str(reason))]))
}

/// The state once a person continues the queue: the next batch, nothing
/// spent.
pub open spec fn continued_state(s: JsonV) -> JsonV {
    with_member(with_member(s, "batch"@, jnum((batch_of(s) + 1) as nat)), "rounds_in_batch"@, jnum(0))
}

/// The state once a person redirects the next batch to queue `q`.
pub open spec fn redirected_state(s: JsonV, q: Seq<char>) -> JsonV {
    with_member(
        with_member(
            with_member(s, "queue"@, crate::guard::text_array(queue_of(q))),
            "batch"@,
            jnum((batch_of(s) + 1) as nat),
        ),
        "rounds_in_batch"@,
        jnum(0),
    )
}

/// The piece of `s` from `i` up to the next `c`, and where it ends.
fn piece(cs: &Vec<char>, c: char, i: usize) -> (r: (Vec<char>, usize))
    requires
        i <= cs@.len(),
    ensures
        r.1 == crate::text::next_char(cs@, c, i as int),
        r.0@ == cs@.subrange(i as int, r.1 as int),
{
    let n = cs.len();
    let mut e = i;
    proof {
        crate::text::lemma_next_char(cs@, c, i as int);
    }
    while e < n && cs[e] != c
        invariant
            n == cs@.len(),
            i <= e <= n,
            crate::text::next_char(cs@, c, i as int) == crate::text::next_char(cs@, c, e as int),
        decreases n - e,
    {
        e = e + 1;
    }
    let mut out: Vec<char> = Vec::new();
    let mut k = i;
    while k < e
        invariant
            i <= k <= e <= cs@.len(),
            out@ == cs@.subrange(i as int, k as int),
        decreases e - k,
    {
        out.push(cs[k]);
        k = k + 1;
        proof {
            assert(out@ =~= cs@.subrange(i as int, k as int));
        }
    }
    (out, e)
}

proof fn lemma_kept_push(done: Seq<Seq<char>>, p: Seq<char>)
    ensures
        kept(done.push(p)) == (if trimmed(p).len() > 0 {
            kept(done).push(trimmed(p))
        } else {
            kept(done)
        }),
{
    assert(done.push(p).drop_last() =~= done);
}

fn push_trimmed(out: &mut Vec<String>, p: &Vec<char>)
    ensures
        texts(final(out)@) == (if trimmed(p@).len() > 0 {
            texts(old(out)@).push(trimmed(p@))
        } else {
            texts(old(out)@)
        }),
{
    let t = trim(string_of(p).as_str());
    if t.unicode_len() > 0 {
        push_text(out, t);
    }
}

/// The `sep`-separated pieces of `q`, as `str::split(sep)` gives them.
pub fn split_pieces(q: &str, sep: char) -> (r: Vec<Vec<char>>)
    ensures
        crate::text::views_of(r@) == split_from(q@, sep, 0),
{
    let cs = chars_of(q);
    let n = cs.len();
    let mut out: Vec<Vec<char>> = Vec::new();
    let mut i: usize = 0;
    let mut more = true;
    proof {
        assert(crate::text::views_of(out@) + split_from(q@, sep, 0) =~= split_from(q@, sep, 0));
    }
    while more
        invariant
            cs@ == q@,
            n == q@.len(),
            i <= n,
            more ==> crate::text::views_of(out@) + split_from(q@, sep, i as int) == split_from(q@, sep, 0),
            !more ==> crate::text::views_of(out@) == split_from(q@, sep, 0),
        decreases n - i + (if more { 1int } else { 0int }),
    {
        let (p, e) = piece(&cs, sep, i);
        proof {
            crate::text::lemma_next_char(q@, sep, i as int);
        }
        let ghost before = crate::text::views_of(out@);
        let ghost pv = p@;
        out.push(p);
        proof {
            assert(crate::text::views_of(out@) =~= before.push(pv));
        }
        if e >= n {
            proof {
                assert(split_from(q@, sep, i as int) =~= seq![pv]);
                assert(before + seq![pv] =~= before.push(pv));
            }
            more = false;
        } else {
            proof {
                assert(split_from(q@, sep, i as int) =~= seq![pv] + split_from(q@, sep, e + 1));
                assert(before + (seq![pv] + split_from(q@, sep, e + 1)) =~= before.push(pv) + split_from(q@, sep, e + 1));
            }
            i = e + 1;
        }
    }
    out
}

/// The entries of a redirect, as a list.
pub fn queue_entries(q: &str) -> (r: Vec<String>)
    ensures
        texts(r@) == queue_of(q@),
{
    let ps = split_pieces(q, ';');
    let ghost pv = crate::text::views_of(ps@);
    let mut out: Vec<String> = Vec::new();
    let n = ps.len();
    proof {
        assert(kept(pv.take(0)) =~= Seq::<Seq<char>>::empty());
    }
    for i in 0..n
        invariant
            n == ps@.len(),
            pv == crate::text::views_of(ps@),
            texts(out@) == kept(pv.take(i as int)),
    {
        proof {
            lemma_kept_push(pv.take(i as int), ps@[i as int]@);
            assert(pv.take(i + 1) =~= pv.take(i as int).push(ps@[i as int]@));
        }
        push_trimmed(&mut out, &ps[i]);
    }
    proof {
        assert(pv.take(n as int) =~= pv);
    }
    out
}

impl GoalLoop {
    /// A person stops the loop at `at` for `reason`.
    pub fn stop(&mut self, reason: &str, at: &str)
        requires
            settable(old(self).state@),
        ensures
            final(self).state@ == stopped_state(old(self).state@, reason@, at@),
            final(self).config == old(self).config,
            final(self).root == old(self).root,
    {
        let mut es: Vec<(String, Json)> = Vec::new();
        es.push(pair("at", Json::text(at)));
        es.push(pair("reason", Json::text(reason)));
        proof {
            lemma_entries(es@);
            assert(view_entries(es@) =~= seq![("at"@, JsonV::Str(at@)), ("reason"@, JsonV::Str(reason@))]);
        }
        self.put_state("stopped", obj(es));
    }

    /// A person continues the queue: the next batch starts with nothing
    /// spent. Returns the new batch number.
    pub fn continue_batch(&mut self) -> (r: u64)
        requires
            settable(old(self).state@),
            batch_of(old(self).state@) < u64::MAX,
        ensures
            final(self).state@ == continued_state(old(self).state@),
            r == batch_of(old(self).state@) + 1,
            final(self).config == old(self).config,
            final(self).root == old(self).root,
    {
        let b = num_field(&self.state, "batch", 1) + 1;
        self.put_state("batch", Json::num(b));
        self.put_state("rounds_in_batch", Json::num(0));
        b
    }

    /// A person redirects the next batch to the `;`-separated queue `q`.
    /// Returns the new batch number.
    pub fn redirect(&mut self, q: &str) -> (r: u64)
        requires
            settable(old(self).state@),
            batch_of(old(self).state@) < u64::MAX,
        ensures
            final(self).state@ == redirected_state(old(self).state@, q@),
            r == batch_of(old(self).state@) + 1,
            final(self).config == old(self).config,
            final(self).root == old(self).root,
    {
        let items = queue_entries(q);
        let b = num_field(&self.state, "batch", 1) + 1;
        let list = crate::guard::texts_json(&items);
        self.put_state("queue", list);
        self.put_state("batch", Json::num(b));
        self.put_state("rounds_in_batch", Json::num(0));
        b
    }
}


/// Setting a member is read back; the other members stay.
pub proof fn lemma_member_put(s: JsonV, k: Seq<char>, v: JsonV, k2: Seq<char>)
    requires
        settable(s),
    ensures
        member(with_member(s, k, v), k2) == if k2 == k {
            Some(v)
        } else {
            member(s, k2)
        },
{
    crate::json::lemma_put_entry(fields_of(s), k, v, k2);
}

/// A number written as JSON reads back.
pub proof fn lemma_num_round_trip(n: u64)
    ensures
        u64_of(Some(jnum(n as nat))) == Some(n),
{
    crate::text::lemma_decimal_round_trip(n as nat);
}

proof fn lemma_state_keys()
    ensures
        "open_round"@ != "rounds_in_batch"@,
        "open_round"@ != "history"@,
        "open_round"@ != "batch"@,
        "rounds_in_batch"@ != "history"@,
        "rounds_in_batch"@ != "batch"@,
        "history"@ != "batch"@,
        "queue"@ != "batch"@,
        "queue"@ != "rounds_in_batch"@,
        "queue"@ != "open_round"@,
        "note"@ != "count"@,
        "note"@ != "last"@,
        "count"@ != "last"@,
{
    reveal_strlit("open_round");
    reveal_strlit("rounds_in_batch");
    reveal_strlit("history");
    reveal_strlit("batch");
    reveal_strlit("queue");
    reveal_strlit("note");
    reveal_strlit("count");
    reveal_strlit("last");
    assert("open_round"@.len() != "rounds_in_batch"@.len());
    assert("open_round"@.len() != "history"@.len());
    assert("open_round"@.len() != "batch"@.len());
    assert("rounds_in_batch"@.len() != "history"@.len());
    assert("rounds_in_batch"@.len() != "batch"@.len());
    assert("history"@.len() != "batch"@.len());
    assert("queue"@[0] != "batch"@[0]);
    assert("queue"@.len() != "rounds_in_batch"@.len());
    assert("queue"@.len() != "open_round"@.len());
    assert("note"@[0] != "count"@[0]);
    assert("note"@[0] != "last"@[0]);
    assert("count"@.len() != "last"@.len());
}

/// Closing a round counts it against the batch, leaves no round open, and
/// records it last in the history; the batch stays the same.
pub proof fn lemma_close_counts_the_round(s: JsonV, entry: JsonV)
    requires
        recordable(s),
        used_of(s) < u64::MAX,
    ensures
        used_of(closed_state(s, entry)) == used_of(s) + 1,
        open_round_of(closed_state(s, entry)) is None,
        items_of(member(closed_state(s, entry), "history"@)) == items_of(member(s, "history"@)).push(entry),
        batch_of(closed_state(s, entry)) == batch_of(s),
{
    lemma_state_keys();
    let h = JsonV::Array(items_of(member(s, "history"@)).push(entry));
    let s1 = with_member(s, "history"@, h);
    let s2 = with_member(s1, "rounds_in_batch"@, jnum((used_of(s) + 1) as nat));
    lemma_member_put(s, "history"@, h, "history"@);
    lemma_member_put(s, "history"@, h, "batch"@);
    lemma_member_put(s1, "rounds_in_batch"@, jnum((used_of(s) + 1) as nat), "rounds_in_batch"@);
    lemma_member_put(s1, "rounds_in_batch"@, jnum((used_of(s) + 1) as nat), "history"@);
    lemma_member_put(s1, "rounds_in_batch"@, jnum((used_of(s) + 1) as nat), "batch"@);
    lemma_member_put(s2, "open_round"@, JsonV::Null, "rounds_in_batch"@);
    lemma_member_put(s2, "open_round"@, JsonV::Null, "open_round"@);
    lemma_member_put(s2, "open_round"@, JsonV::Null, "history"@);
    lemma_member_put(s2, "open_round"@, JsonV::Null, "batch"@);
    lemma_num_round_trip((used_of(s) + 1) as u64);
}

/// Aborting a round leaves no round open and records it last in the
/// history, without counting it against the batch.
pub proof fn lemma_abort_does_not_count(s: JsonV, entry: JsonV)
    requires
        recordable(s),
    ensures
        used_of(aborted_state(s, entry)) == used_of(s),
        open_round_of(aborted_state(s, entry)) is None,
        items_of(member(aborted_state(s, entry), "history"@)) == items_of(member(s, "history"@)).push(entry),
        batch_of(aborted_state(s, entry)) == batch_of(s),
{
    lemma_state_keys();
    let s1 = with_member(s, "open_round"@, JsonV::Null);
    let h = JsonV::Array(items_of(member(s1, "history"@)).push(entry));
    lemma_member_put(s, "open_round"@, JsonV::Null, "history"@);
    lemma_member_put(s, "open_round"@, JsonV::Null, "open_round"@);
    lemma_member_put(s, "open_round"@, JsonV::Null, "rounds_in_batch"@);
    lemma_member_put(s, "open_round"@, JsonV::Null, "batch"@);
    lemma_member_put(s1, "history"@, h, "history"@);
    lemma_member_put(s1, "history"@, h, "open_round"@);
    lemma_member_put(s1, "history"@, h, "rounds_in_batch"@);
    lemma_member_put(s1, "history"@, h, "batch"@);
}

/// Continuing the queue starts the next batch with nothing spent, and
/// leaves an open round open.
pub proof fn lemma_continue_starts_a_fresh_batch(s: JsonV)
    requires
        settable(s),
        batch_of(s) < u64::MAX,
    ensures
        used_of(continued_state(s)) == 0,
        batch_of(continued_state(s)) == batch_of(s) + 1,
        open_round_of(continued_state(s)) == open_round_of(s),
{
    lemma_state_keys();
    let s1 = with_member(s, "batch"@, jnum((batch_of(s) + 1) as nat));
    lemma_member_put(s, "batch"@, jnum((batch_of(s) + 1) as nat), "batch"@);
    lemma_member_put(s, "batch"@, jnum((batch_of(s) + 1) as nat), "open_round"@);
    lemma_member_put(s1, "rounds_in_batch"@, jnum(0), "rounds_in_batch"@);
    lemma_member_put(s1, "rounds_in_batch"@, jnum(0), "batch"@);
    lemma_member_put(s1, "rounds_in_batch"@, jnum(0), "open_round"@);
    lemma_num_round_trip((batch_of(s) + 1) as u64);
    lemma_num_round_trip(0);
}

/// Redirecting sets the queue to the named entries and starts the next
/// batch with nothing spent.
pub proof fn lemma_redirect_starts_a_fresh_batch(s: JsonV, q: Seq<char>)
    requires
        settable(s),
        batch_of(s) < u64::MAX,
    ensures
        used_of(redirected_state(s, q)) == 0,
        batch_of(redirected_state(s, q)) == batch_of(s) + 1,
        member(redirected_state(s, q), "queue"@) == Some(crate::guard::text_array(queue_of(q))),
        open_round_of(redirected_state(s, q)) == open_round_of(s),
{
    lemma_state_keys();
    let t = crate::guard::text_array(queue_of(q));
    let s1 = with_member(s, "queue"@, t);
    let s2 = with_member(s1, "batch"@, jnum((batch_of(s) + 1) as nat));
    lemma_member_put(s, "queue"@, t, "queue"@);
    lemma_member_put(s, "queue"@, t, "batch"@);
    lemma_member_put(s, "queue"@, t, "open_round"@);
    lemma_member_put(s1, "batch"@, jnum((batch_of(s) + 1) as nat), "batch"@);
    lemma_member_put(s1, "batch"@, jnum((batch_of(s) + 1) as nat), "queue"@);
    lemma_member_put(s1, "batch"@, jnum((batch_of(s) + 1) as nat), "open_round"@);
    lemma_member_put(s2, "rounds_in_batch"@, jnum(0), "rounds_in_batch"@);
    lemma_member_put(s2, "rounds_in_batch"@, jnum(0), "batch"@);
    lemma_member_put(s2, "rounds_in_batch"@, jnum(0), "queue"@);
    lemma_member_put(s2, "rounds_in_batch"@, jnum(0), "open_round"@);
    lemma_num_round_trip((batch_of(s) + 1) as u64);
    lemma_num_round_trip(0);
}

proof fn lemma_first_note_same(a: Seq<JsonV>, b: Seq<JsonV>, note: Seq<char>, k: int, i: int)
    requires
        0 <= k <= i,
        i < a.len(),
        i < b.len(),
        forall|j: int| k <= j < i ==> a[j] == b[j],
        notes(b[i], note),
        first_note_from(a, note, k) == Some(i),
    ensures
        first_note_from(b, note, k) == Some(i),
    decreases i - k,
{
    if k < i {
        lemma_first_note_same(a, b, note, k + 1, i);
    }
}

proof fn lemma_first_note_none_push(a: Seq<JsonV>, x: JsonV, note: Seq<char>, k: int)
    requires
        0 <= k <= a.len(),
        first_note_from(a, note, k) is None,
        notes(x, note),
    ensures
        first_note_from(a.push(x), note, k) == Some(a.len() as int),
    decreases a.len() - k,
{
    if k < a.len() {
        assert(a.push(x)[k] == a[k]);
        lemma_first_note_none_push(a, x, note, k + 1);
    }
}

/// Recording a friction leaves its note recorded with the count the call
/// reports: one the first time, one more each time the same note (trimmed,
/// ignoring ASCII case) comes back.
pub proof fn lemma_friction_counts_up(s: JsonV, note: Seq<char>, at: Seq<char>)
    requires
        friction_recordable(s, note),
    ensures
        first_note_from(frictions(friction_recorded(s, note, at)), note, 0) matches Some(i) && count_of(
            frictions(friction_recorded(s, note, at))[i],
        ) == friction_count(s, note),
{
    lemma_state_keys();
    let items = frictions(s);
    lemma_first_note_from(items, note, 0);
    match first_note_from(items, note, 0) {
        Some(i) => {
            let f = items[i];
            let c = count_of(f) + 1;
            let f1 = with_member(f, "count"@, jnum(c as nat));
            let f2 = with_member(f1, "last"@, JsonV::Str(at));
            assert(f is Object);
            lemma_member_put(f, "count"@, jnum(c as nat), "note"@);
            lemma_member_put(f, "count"@, jnum(c as nat), "count"@);
            lemma_member_put(f1, "last"@, JsonV::Str(at), "note"@);
            lemma_member_put(f1, "last"@, JsonV::Str(at), "count"@);
            lemma_num_round_trip(c as u64);
            let after = items.update(i, f2);
            lemma_member_put(s, "friction"@, JsonV::Array(after), "friction"@);
            assert(notes(f2, note));
            lemma_first_note_same(items, after, note, 0, i);
        },
        None => {
            let x = new_friction(note, at);
            reveal_strlit("note");
            reveal_strlit("count");
            assert(member(x, "note"@) == Some(JsonV::Str(note)));
            crate::json::lemma_find_key_step(x->Object_0, "count"@, 0);
            crate::json::lemma_find_key_step(x->Object_0, "count"@, 1);
            assert(member(x, "count"@) == Some(jnum(1)));
            lemma_num_round_trip(1);
            assert(same_ignoring_ascii_case(trimmed(note), trimmed(note)));
            lemma_member_put(s, "friction"@, JsonV::Array(items.push(x)), "friction"@);
            lemma_first_note_none_push(items, x, note, 0);
        },
    }
}


/// The placeholders a driver command receives: the request file (twice
/// named), its output directory (twice named), the round's directory, and
/// the phase it runs in (`drive`, or `verify` for the second run).
pub open spec fn drive_pairs(request: Seq<char>, out: Seq<char>, round: Seq<char>, phase: Seq<char>) -> Seq<(Seq<char>, Seq<char>)> {
    seq![
        ("request"@, request),
        ("request_file"@, request),
        ("out"@, out),
        ("out_dir"@, out),
        ("round_dir"@, round),
        ("phase"@, phase),
    ]
}

/// The refusal to drive with no driver configured.
pub open spec fn no_driver_message() -> Seq<char> {
    "no drive command in goals/loop.json. The driver must approach the feature through the same surface a user would."@
}

/// The placeholders a scorer command receives: the round's directory (as
/// `round_dir` and `out`) and the phase it scores.
pub open spec fn score_pairs(round: Seq<char>, phase: Seq<char>) -> Seq<(Seq<char>, Seq<char>)> {
    seq![("round_dir"@, round), ("out"@, round), ("phase"@, phase)]
}

/// The refusal to score with no scorer configured.
pub open spec fn no_scorer_message() -> Seq<char> {
    "no score command in goals/loop.json."@
}

/// The phase a scorer scores: the verification run or the first drive.
pub open spec fn score_phase(verify: bool) -> Seq<char> {
    if verify {
        "verify"@
    } else {
        "drive"@
    }
}

impl GoalLoop {
    /// The driver command for this round, with its placeholders filled in;
    /// refused when no driver is configured.
    pub fn drive_command(&self, request: &str, out: &str, round: &str, phase: &str) -> (r: Res<String>)
        ensures
            command_of(self.config@, "drive"@).len() == 0 ==> (r matches Err(e) && e.0@ == no_driver_message()),
            command_of(self.config@, "drive"@).len() > 0 ==> (r matches Ok(c) && c@ == substituted(
                command_of(self.config@, "drive"@),
                drive_pairs(request@, out@, round@, phase@),
            )),
    {
        let drive = self.cmd("drive");
        if drive.unicode_len() == 0 {
            return err(
                "no drive command in goals/loop.json. The driver must approach the feature through the same surface a user would.".to_string(),
            );
        }
        let mut pairs: Vec<(&str, &str)> = Vec::new();
        pairs.push(("request", request));
        pairs.push(("request_file", request));
        pairs.push(("out", out));
        pairs.push(("out_dir", out));
        pairs.push(("round_dir", round));
        pairs.push(("phase", phase));
        proof {
            assert(pair_views(pairs@) =~= drive_pairs(request@, out@, round@, phase@));
        }
        Ok(subst(drive.as_str(), pairs.as_slice()))
    }

    /// The scorer command for this round, with its placeholders filled in;
    /// refused when no scorer is configured.
    pub fn score_command(&self, verify: bool, round: &str) -> (r: Res<String>)
        ensures
            command_of(self.config@, "score"@).len() == 0 ==> (r matches Err(e) && e.0@ == no_scorer_message()),
            command_of(self.config@, "score"@).len() > 0 ==> (r matches Ok(c) && c@ == substituted(
                command_of(self.config@, "score"@),
                score_pairs(round@, score_phase(verify)),
            )),
    {
        let score = self.cmd("score");
        if score.unicode_len() == 0 {
            return err("no score command in goals/loop.json.".to_string());
        }
        let phase = if verify {
            "verify"
        } else {
            "drive"
        };
        let mut pairs: Vec<(&str, &str)> = Vec::new();
        pairs.push(("round_dir", round));
        pairs.push(("out", round));
        pairs.push(("phase", phase));
        proof {
            assert(pair_views(pairs@) =~= score_pairs(round@, score_phase(verify)));
        }
        Ok(subst(score.as_str(), pairs.as_slice()))
    }

    /// The open round's number, or the refusal that none is open.
    pub fn round_number(&self) -> (r: Res<u64>)
        ensures
            match open_round_of(self.state@) {
                Some(o) => r == Ok::<u64, LoopError>(num_or(member(o, "n"@), 0)),
                None => r matches Err(e) && e.0@ == no_open_round_message(),
            },
    {
        match self.open_round() {
            Ok(r) => Ok(num_field(r, "n", 0)),
            Err(e) => Err(e),
        }
    }

    /// Records the exit code of a run of `label` in the open round, as
    /// `<label>_exit`.
    pub fn record_exit(&mut self, label: &str, code: i32) -> (r: Res<()>)
        ensures
            match open_round_of(old(self).state@) {
                Some(_) => r is Ok && final(self).state@ == round_with(
                    old(self).state@,
                    label@ + "_exit"@,
                    JsonV::Number(crate::report::int_text(code as int)),
                ),
                None => r matches Err(e) && e.0@ == no_open_round_message() && final(self).state == old(self).state,
            },
            final(self).config == old(self).config,
            final(self).root == old(self).root,
    {
        let mut k = label.to_string();
        k.append("_exit");
        self.set_round_field(k.as_str(), Json::Number(crate::report::code_text(code)))
    }
}


/// Whether friction `note` can be recorded in `state`.
pub fn can_record_friction(state: &Json, note: &str) -> (r: bool)
    ensures
        r == friction_recordable(state@, note@),
{
    proof {
        lemma_view_json(*state);
    }
    match state {
        Json::Object(_) => {},
        Json::Null => {},
        _ => {
            return false;
        },
    }
    match state.get("friction") {
        Some(f) => {
            proof {
                lemma_view_json(*f);
            }
            match f {
                Json::Array(_) => {},
                _ => {
                    return false;
                },
            }
        },
        None => {},
    }
    let list = items_copy(state, "friction");
    let _len = list.len();
    proof {
        lemma_view_items(list@);
        lemma_first_note_from(view_items(list@), note@, 0);
    }
    match find_note(&list, note) {
        Some(i) => {
            proof {
                assert(view_items(list@)[i as int] == list@[i as int]@);
            }
            num_field(&list[i], "count", 1) < u64::MAX
        },
        None => true,
    }
}


/// The budget stops the loop for a person: with no round open and the batch
/// spent, a round opens only when forced.
pub proof fn lemma_spent_batch_needs_a_person(s: JsonV, budget: u64)
    requires
        open_round_of(s) is None,
        used_of(s) >= budget,
    ensures
        open_refusal(s, budget, false) is Some,
        open_refusal(s, budget, true) is None,
{
}

/// After a person continues the queue, a round may open again (when none is
/// open and the budget allows one).
pub proof fn lemma_continued_batch_opens(s: JsonV, budget: u64)
    requires
        settable(s),
        batch_of(s) < u64::MAX,
        open_round_of(s) is None,
        budget > 0,
    ensures
        open_refusal(continued_state(s), budget, false) is None,
{
    lemma_continue_starts_a_fresh_batch(s);
}

/// An unhealthy world scores nothing and opens no round: the round is
/// dropped and history records it as `no_score`, without counting it
/// against the batch.
pub proof fn lemma_unhealthy_world_opens_no_round(s: JsonV, n: u64, stem: Seq<char>, at: Seq<char>)
    requires
        recordable(s),
    ensures
        ({
            let after = with_pushed(with_member(s, "open_round"@, JsonV::Null), "history"@, no_score_entry(n, stem, at));
            &&& open_round_of(after) is None
            &&& items_of(member(after, "history"@)).last() == no_score_entry(n, stem, at)
            &&& used_of(after) == used_of(s)
        }),
{
    lemma_abort_does_not_count(s, no_score_entry(n, stem, at));
}

/// A forced close goes through: when a round is open, closing it with
/// `--force` is refused for nothing, whatever the verdict's violations and
/// whatever the floor says.
pub proof fn lemma_forced_close_is_never_refused(s: JsonV, v: VerdictV)
    requires
        open_round_of(s) is Some,
    ensures
        close_refusal(s, v, true) is None,
{
}

/// An unforced close over a boundary crossing is refused: when a round is
/// open and the verdict has a violation, closing without `--force` is refused
/// with the violations message; without a violation and with a floor that is
/// not red, it goes through.
pub proof fn lemma_unforced_close_is_refused_exactly_over_violations_or_red(s: JsonV, v: VerdictV)
    requires
        open_round_of(s) is Some,
    ensures
        v.violations.len() > 0 ==> close_refusal(s, v, false) == Some(violations_block_message()),
        v.violations.len() == 0 && text_or(member(open_round_of(s)->0, "floor_after"@), ""@) != "red"@
            ==> close_refusal(s, v, false) is None,
        v.violations.len() == 0 && text_or(member(open_round_of(s)->0, "floor_after"@), ""@) == "red"@
            ==> close_refusal(s, v, false) == Some(red_floor_message()),
{
}

} // verus!
