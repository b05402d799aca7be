//! What the commands say: the status report, the brief, the evidence logs,
//! the gap record, the proposals, and the verdicts on the world and the
//! floor. Everything here is text made from plain values.

use vstd::prelude::*;
use crate::control::{truncate, truncated};
use crate::goal_loop::{GoalLoop, text_or, num_or, text_field, num_field, padded, decimal_string, open_round_of, budget_of, items_of, shown_count, or_dash};
use crate::glob::GlobSet;
use crate::json::{Json, JsonV, member, text_of, lemma_view_json, lemma_view_items, view_items};
use crate::text::{decimal, zero_padded, texts, lemma_texts, push_text, joined, join, white_space, is_white, chars_of, string_of, lines, lines_of, views_of};

verus! {

/// One line of a command's report: a heading, a success, a warning, a
/// failure, a note, or a blank line.
pub enum Say {
    Head(String),
    Good(String),
    Warn(String),
    Bad(String),
    Note(String),
    Blank,
}

/// The model of a report line.
pub ghost enum SayV {
    Head(Seq<char>),
    Good(Seq<char>),
    Warn(Seq<char>),
    Bad(Seq<char>),
    Note(Seq<char>),
    Blank,
}

impl View for Say {
    type V = SayV;

    open spec fn view(&self) -> SayV {
        match self {
            Say::Head(t) => SayV::Head(t@),
            Say::Good(t) => SayV::Good(t@),
            Say::Warn(t) => SayV::Warn(t@),
            Say::Bad(t) => SayV::Bad(t@),
            Say::Note(t) => SayV::Note(t@),
            Say::Blank => SayV::Blank,
        }
    }
}

/// The models of a list of report lines.
pub open spec fn said(v: Seq<Say>) -> Seq<SayV> {
    Seq::new(v.len(), |i: int| v[i]@)
}

fn say(out: &mut Vec<Say>, s: Say)
    ensures
        said(final(out)@) == said(old(out)@).push(s@),
{
    let ghost before = said(out@);
    out.push(s);
    proof {
        assert(said(out@) =~= before.push(s@));
    }
}

/// What comes after a round's phase.
pub open spec fn next_step_of(phase: Seq<char>) -> Seq<char> {
    if phase == "opened"@ {
        "otogo drive"@
    } else if phase == "drive"@ {
        "otogo score"@
    } else if phase == "score"@ {
        "otogo classify --layer <layer> --gap \"...\""@
    } else if phase == "classified"@ {
        "close the path, add a rung, then otogo verify"@
    } else if phase == "verify"@ || phase == "verified"@ {
        "otogo close --outcome <improved|unchanged|regressed>"@
    } else {
        "otogo close"@
    }
}

/// What comes after a round's phase.
pub fn next_step(phase: &str) -> (r: &'static str)
    ensures
        r@ == next_step_of(phase@),
{
    if crate::guard::same_str(phase, "opened") {
        "otogo drive"
    } else if crate::guard::same_str(phase, "drive") {
        "otogo score"
    } else if crate::guard::same_str(phase, "score") {
        "otogo classify --layer <layer> --gap \"...\""
    } else if crate::guard::same_str(phase, "classified") {
        "close the path, add a rung, then otogo verify"
    } else if crate::guard::same_str(phase, "verify") || crate::guard::same_str(phase, "verified") {
        "otogo close --outcome <improved|unchanged|regressed>"
    } else {
        "otogo close"
    }
}

/// The frictions recorded more than once, in order.
pub open spec fn repeated(f: Seq<JsonV>) -> Seq<JsonV>
    decreases f.len(),
{
    if f.len() == 0 {
        Seq::empty()
    } else if num_or(member(f.last(), "count"@), 1) > 1 {
        repeated(f.drop_last()).push(f.last())
    } else {
        repeated(f.drop_last())
    }
}

/// The report lines about the open round `r`.
pub open spec fn round_report(r: JsonV) -> Seq<SayV> {
    let phase = text_or(member(r, "phase"@), ""@);
    let gap = text_of(member(r, "gap"@));
    seq![
        SayV::Head(
            "Round "@ + zero_padded(num_or(member(r, "n"@), 0) as nat, 3) + " — `"@ + text_or(member(r, "request"@), ""@)
                + "` ("@ + phase + ")"@,
        ),
        SayV::Good("world "@ + text_or(member(r, "world"@), "?"@) + " · floor "@ + text_or(member(r, "floor"@), "?"@)),
        if gap matches Some(g) && g.len() > 0 {
            SayV::Good("gap ["@ + text_or(member(r, "layer"@), ""@) + "] "@ + gap->0)
        } else {
            SayV::Warn("gap unclassified — without it, every agent failure becomes a prompt problem"@)
        },
        SayV::Note("next: "@ + next_step_of(phase)),
    ]
}

/// One recent round, as the status report shows it.
pub open spec fn recent_line(e: JsonV) -> Seq<char> {
    zero_padded(num_or(member(e, "n"@), 0) as nat, 3) + " ["@ + or_dash(text_or(member(e, "layer"@), ""@)) + "] "@ + text_or(
        member(e, "outcome"@),
        ""@,
    ) + " — "@ + truncated(text_or(member(e, "gap"@), ""@), 60)
}

/// The five most recent rounds, newest first, under a heading; nothing when
/// no round has closed.
pub open spec fn recent_report(h: Seq<JsonV>) -> Seq<SayV> {
    if h.len() == 0 {
        Seq::empty()
    } else {
        seq![SayV::Head("Recent"@)] + Seq::new(shown_count(h.len(), 5), |i: int| SayV::Note(recent_line(h[h.len() - 1 - i])))
    }
}

/// The repeated frictions under a heading; nothing when none repeats.
pub open spec fn friction_report(f: Seq<JsonV>) -> Seq<SayV> {
    let r = repeated(f);
    if r.len() == 0 {
        Seq::empty()
    } else {
        seq![SayV::Head("Repeated friction (earns a harness change)"@)] + Seq::new(
            r.len(),
            |i: int| SayV::Warn("("@ + decimal(num_or(member(r[i], "count"@), 1) as nat) + "x) "@ + text_or(member(r[i], "note"@), ""@)),
        )
    }
}

/// Where the loop is and what comes next.
pub open spec fn status_report(root: Seq<char>, s: JsonV, budget: u64) -> Seq<SayV> {
    seq![SayV::Head("otogo"@), SayV::Note(root)] + (match open_round_of(s) {
        Some(r) => round_report(r),
        None => seq![SayV::Head("No open round"@), SayV::Note("next: otogo open <request-id>"@)],
    }) + seq![
        SayV::Head(
            "Batch "@ + decimal(num_or(member(s, "batch"@), 1) as nat) + ": "@ + decimal(num_or(member(s, "rounds_in_batch"@), 0) as nat)
                + "/"@ + decimal(budget as nat) + " rounds"@,
        ),
    ] + recent_report(items_of(member(s, "history"@))) + friction_report(items_of(member(s, "friction"@))) + seq![SayV::Blank]
}

fn append_said(out: &mut Vec<Say>, more: Vec<Say>)
    ensures
        said(final(out)@) == said(old(out)@) + said(more@),
{
    let ghost start = out@;
    let mut more = more;
    let ghost mv = more@;
    out.append(&mut more);
    proof {
        assert(said(out@) =~= said(start) + said(mv));
    }
}

fn round_part(r: &Json) -> (out: Vec<Say>)
    ensures
        said(out@) == round_report(r@),
{
    proof {
        reveal_strlit("");
    }
    let mut out: Vec<Say> = Vec::new();
    let phase = text_field(r, "phase", "");
    let mut h = "Round ".to_string();
    h.append(padded(num_field(r, "n", 0), 3).as_str());
    h.append(" — `");
    h.append(text_field(r, "request", "").as_str());
    h.append("` (");
    h.append(phase.as_str());
    h.append(")");
    say(&mut out, Say::Head(h));
    let mut w = "world ".to_string();
    w.append(text_field(r, "world", "?").as_str());
    w.append(" · floor ");
    w.append(text_field(r, "floor", "?").as_str());
    say(&mut out, Say::Good(w));
    let gap = match r.get("gap") {
        Some(g) => g.as_str(),
        None => None,
    };
    match gap {
        Some(g) if g.unicode_len() > 0 => {
            let mut m = "gap [".to_string();
            m.append(text_field(r, "layer", "").as_str());
            m.append("] ");
            m.append(g);
            say(&mut out, Say::Good(m));
        },
        _ => {
            say(&mut out, Say::Warn("gap unclassified — without it, every agent failure becomes a prompt problem".to_string()));
        },
    }
    let mut nx = "next: ".to_string();
    nx.append(next_step(phase.as_str()));
    say(&mut out, Say::Note(nx));
    proof {
        assert(said(out@) =~= round_report(r@));
    }
    out
}

fn recent_part(h: &[Json]) -> (out: Vec<Say>)
    ensures
        said(out@) == recent_report(view_items(h@)),
{
    proof {
        lemma_view_items(h@);
        reveal_strlit("");
    }
    let ghost hv = view_items(h@);
    let mut out: Vec<Say> = Vec::new();
    let n = h.len();
    if n == 0 {
        proof {
            assert(said(out@) =~= recent_report(hv));
        }
        return out;
    }
    say(&mut out, Say::Head("Recent".to_string()));
    let k: usize = if n < 5 { n } else { 5 };
    for i in 0..k
        invariant
            n == h@.len(),
            n > 0,
            k == shown_count(n as nat, 5),
            hv == view_items(h@),
            hv.len() == n,
            forall|j: int| 0 <= j < n ==> #[trigger] hv[j] == h@[j]@,
            said(out@) == recent_report(hv).take(i + 1),
    {
        let e = &h[n - 1 - i];
        let mut m = padded(num_field(e, "n", 0), 3);
        m.append(" [");
        let layer = text_field(e, "layer", "");
        if layer.unicode_len() == 0 {
            m.append("—");
        } else {
            m.append(layer.as_str());
        }
        m.append("] ");
        m.append(text_field(e, "outcome", "").as_str());
        m.append(" — ");
        m.append(truncate(text_field(e, "gap", "").as_str(), 60).as_str());
        say(&mut out, Say::Note(m));
        proof {
            assert(hv[n - 1 - i] == e@);
            assert(said(out@) =~= recent_report(hv).take(i + 2));
        }
    }
    proof {
        assert(recent_report(hv).take(k + 1) =~= recent_report(hv));
    }
    out
}

fn friction_part(f: &[Json]) -> (out: Vec<Say>)
    ensures
        said(out@) == friction_report(view_items(f@)),
{
    proof {
        lemma_view_items(f@);
        reveal_strlit("");
    }
    let ghost fv = view_items(f@);
    let mut rep: Vec<Say> = Vec::new();
    let n = f.len();
    let ghost mut shown_so_far: Seq<JsonV> = Seq::empty();
    for i in 0..n
        invariant
            n == f@.len(),
            fv == view_items(f@),
            fv.len() == n,
            forall|j: int| 0 <= j < n ==> #[trigger] fv[j] == f@[j]@,
            said(rep@) == Seq::new(
                repeated(fv.take(i as int)).len(),
                |j: int| SayV::Warn("("@ + decimal(num_or(member(repeated(fv.take(i as int))[j], "count"@), 1) as nat) + "x) "@ + text_or(member(repeated(fv.take(i as int))[j], "note"@), ""@)),
            ),
    {
        let e = &f[i];
        let c = num_field(e, "count", 1);
        proof {
            assert(fv.take(i + 1).drop_last() =~= fv.take(i as int));
            assert(fv.take(i + 1).last() == e@);
        }
        if c > 1 {
            let mut m = "(".to_string();
            m.append(decimal_string(c).as_str());
            m.append("x) ");
            m.append(text_field(e, "note", "").as_str());
            say(&mut rep, Say::Warn(m));
        }
        proof {
            let r1 = repeated(fv.take(i + 1));
            assert(said(rep@) =~= Seq::new(
                r1.len(),
                |j: int| SayV::Warn("("@ + decimal(num_or(member(r1[j], "count"@), 1) as nat) + "x) "@ + text_or(member(r1[j], "note"@), ""@)),
            ));
        }
    }
    proof {
        assert(fv.take(n as int) =~= fv);
    }
    let mut out: Vec<Say> = Vec::new();
    if rep.len() == 0 {
        proof {
            assert(said(out@) =~= friction_report(fv));
        }
        return out;
    }
    say(&mut out, Say::Head("Repeated friction (earns a harness change)".to_string()));
    append_said(&mut out, rep);
    proof {
        assert(said(out@) =~= friction_report(fv));
    }
    out
}

fn items_at<'a>(j: &'a Json, k: &str) -> (r: &'a [Json])
    ensures
        view_items(r@) == items_of(member(j@, k@)),
{
    match j.get(k) {
        Some(v) => match v.as_array() {
            Some(a) => a.as_slice(),
            None => {
                proof {
                    lemma_view_json(*v);
                }
                let e: &[Json] = &[];
                proof {
                    assert(e@ =~= Seq::<Json>::empty());
                    assert(view_items(e@) =~= Seq::<JsonV>::empty());
                }
                e
            },
        },
        None => {
            let e: &[Json] = &[];
            proof {
                assert(e@ =~= Seq::<Json>::empty());
                assert(view_items(e@) =~= Seq::<JsonV>::empty());
            }
            e
        },
    }
}

impl GoalLoop {
    /// Where the loop is and what comes next: the open round and its next
    /// step, the batch, the five most recent rounds, and the friction that
    /// has repeated.
    pub fn status(&self) -> (r: Vec<Say>)
        ensures
            said(r@) == status_report(self.root@, self.state@, budget_of(self.config@)),
    {
        let s = &self.state;
        let mut out: Vec<Say> = Vec::new();
        say(&mut out, Say::Head("otogo".to_string()));
        say(&mut out, Say::Note(self.root.clone()));
        match self.open_round() {
            Ok(r) => append_said(&mut out, round_part(r)),
            Err(_) => {
                say(&mut out, Say::Head("No open round".to_string()));
                say(&mut out, Say::Note("next: otogo open <request-id>".to_string()));
            },
        }
        let mut b = "Batch ".to_string();
        b.append(decimal_string(num_field(s, "batch", 1)).as_str());
        b.append(": ");
        b.append(decimal_string(num_field(s, "rounds_in_batch", 0)).as_str());
        b.append("/");
        b.append(decimal_string(self.budget()).as_str());
        b.append(" rounds");
        say(&mut out, Say::Head(b));
        append_said(&mut out, recent_part(items_at(s, "history")));
        append_said(&mut out, friction_part(items_at(s, "friction")));
        say(&mut out, Say::Blank);
        proof {
            assert(said(out@) =~= status_report(self.root@, self.state@, budget_of(self.config@)));
        }
        out
    }
}


/// How long `s` is once trailing white space is dropped.
pub open spec fn trim_end_len(s: Seq<char>) -> nat
    decreases s.len(),
{
    if s.len() > 0 && white_space(s.last()) {
        trim_end_len(s.drop_last())
    } else {
        s.len()
    }
}

pub proof fn lemma_trim_end_len(s: Seq<char>)
    ensures
        trim_end_len(s) <= s.len(),
    decreases s.len(),
{
    if s.len() > 0 && white_space(s.last()) {
        lemma_trim_end_len(s.drop_last());
    }
}

/// `s` without trailing white space, as `str::trim_end` gives it.
pub open spec fn trimmed_end(s: Seq<char>) -> Seq<char> {
    s.take(trim_end_len(s) as int)
}

/// `s` without trailing white space.
pub fn trim_end(s: &str) -> (r: String)
    ensures
        r@ == trimmed_end(s@),
{
    let cs = chars_of(s);
    let mut b = cs.len();
    proof {
        lemma_trim_end_len(s@);
        assert(s@.take(b as int) =~= s@);
    }
    while b > 0 && is_white(cs[b - 1])
        invariant
            cs@ == s@,
            b <= s@.len(),
            trim_end_len(s@) == trim_end_len(s@.take(b as int)),
        decreases b,
    {
        proof {
            assert(s@.take(b as int).drop_last() =~= s@.take(b - 1));
        }
        b = b - 1;
    }
    proof {
        assert(trim_end_len(s@.take(b as int)) == b);
    }
    let mut out: Vec<char> = Vec::new();
    for i in 0..b
        invariant
            cs@ == s@,
            b <= s@.len(),
            out@ == s@.take(i as int),
    {
        out.push(cs[i]);
        proof {
            assert(out@ =~= s@.take(i + 1));
        }
    }
    string_of(&out)
}

/// One part of the brief: a title rule, then the text without trailing
/// white space.
pub open spec fn brief_part(title: Seq<char>, text: Seq<char>) -> Seq<char> {
    "===== "@ + title + " =====\n"@ + trimmed_end(text) + "\n"@
}

/// One part of the brief.
pub fn brief_section(title: &str, text: &str) -> (r: String)
    ensures
        r@ == brief_part(title@, text@),
{
    let mut m = "===== ".to_string();
    m.append(title);
    m.append(" =====\n");
    m.append(trim_end(text).as_str());
    m.append("\n");
    m
}

/// Patterns listed with commas, or a dash when there are none.
pub open spec fn listed(v: Seq<Seq<char>>) -> Seq<char> {
    if v.len() == 0 {
        "—"@
    } else {
        joined(v, ", "@)
    }
}

fn list_globs(g: &GlobSet) -> (r: String)
    ensures
        r@ == listed(g@),
{
    let src = g.sources();
    let mut v: Vec<String> = Vec::new();
    for i in 0..src.len()
        invariant
            src@.len() == g@.len(),
            forall|k: int| 0 <= k < src@.len() ==> #[trigger] src@[k]@ == g@[k],
            texts(v@) == g@.take(i as int),
    {
        push_text(&mut v, src[i].to_string());
        proof {
            assert(texts(v@) =~= g@.take(i + 1));
        }
    }
    proof {
        assert(g@.take(src@.len() as int) =~= g@);
    }
    if v.len() == 0 {
        proof {
            lemma_texts(v@);
        }
        "—".to_string()
    } else {
        proof {
            lemma_texts(v@);
        }
        join(&v, ", ")
    }
}

/// The authority part of the brief: what is frozen, what a person decides,
/// and what is append-only.
pub open spec fn authority_part(frozen: Seq<Seq<char>>, propose: Seq<Seq<char>>, measure: Seq<Seq<char>>) -> Seq<char> {
    "===== authority =====\nfrozen  (the stone; never change): "@ + listed(frozen)
        + "\npropose (a person decides):       "@ + listed(propose) + "\nmeasure (append-only rungs):      "@
        + listed(measure) + "\n"@
}

impl GoalLoop {
    /// The authority a fresh session must know, as the brief carries it.
    pub fn authority_brief(&self) -> (r: String)
        ensures
            r@ == authority_part(
                crate::guard::globs_of(crate::json::member2(self.config@, "authority"@, "frozen"@)),
                crate::guard::globs_of(crate::json::member2(self.config@, "authority"@, "propose"@)),
                crate::guard::globs_of(crate::json::member2(self.config@, "measure"@, "globs"@)),
            ),
    {
        let mut m = "===== authority =====\nfrozen  (the stone; never change): ".to_string();
        m.append(list_globs(&self.frozen()).as_str());
        m.append("\npropose (a person decides):       ");
        m.append(list_globs(&self.propose()).as_str());
        m.append("\nmeasure (append-only rungs):      ");
        m.append(list_globs(&self.measure()).as_str());
        m.append("\n");
        m
    }
}

/// `n` in decimal, with a minus sign when negative.
pub open spec fn int_text(n: int) -> Seq<char> {
    if n < 0 {
        seq!['-'] + decimal((-n) as nat)
    } else {
        decimal(n as nat)
    }
}

/// An exit code in decimal.
pub fn code_text(n: i32) -> (r: String)
    ensures
        r@ == int_text(n as int),
{
    if n < 0 {
        let m: i64 = -(n as i64);
        let mut s = "-".to_string();
        proof {
            reveal_strlit("-");
        }
        s.append(decimal_string(m as u64).as_str());
        s
    } else {
        decimal_string(n as u64)
    }
}

/// The log of one command run: the command, what it printed on each
/// stream, and its exit code.
pub open spec fn run_log_text(cmd: Seq<char>, out: Seq<char>, err: Seq<char>, code: int) -> Seq<char> {
    "$ "@ + cmd + "\n\n[stdout]\n"@ + out + "\n[stderr]\n"@ + err + "\n[exit "@ + int_text(code) + "]\n"@
}

/// The log of one command run.
pub fn run_log(cmd: &str, out: &str, err: &str, code: i32) -> (r: String)
    ensures
        r@ == run_log_text(cmd@, out@, err@, code as int),
{
    let mut m = "$ ".to_string();
    m.append(cmd);
    m.append("\n\n[stdout]\n");
    m.append(out);
    m.append("\n[stderr]\n");
    m.append(err);
    m.append("\n[exit ");
    m.append(code_text(code).as_str());
    m.append("]\n");
    m
}

/// What a killed command's error stream gains: why it was killed.
pub open spec fn killed_note_text(secs: u64) -> Seq<char> {
    "\n[otogo] killed after "@ + decimal(secs as nat)
        + "s: the command exceeded its budget. A command that hangs looks exactly like one that is slow.\n"@
}

/// Why a command was killed.
pub fn killed_note(secs: u64) -> (r: String)
    ensures
        r@ == killed_note_text(secs),
{
    let mut m = "\n[otogo] killed after ".to_string();
    m.append(decimal_string(secs).as_str());
    m.append("s: the command exceeded its budget. A command that hangs looks exactly like one that is slow.\n");
    m
}

/// The report of a command that outran its budget: `what` names it,
/// `name` is its key under `timeouts`.
pub open spec fn timed_out_text(what: Seq<char>, name: Seq<char>, secs: u64) -> Seq<char> {
    what + " TIMED OUT after "@ + decimal(secs as nat) + "s — a hang looks exactly like slow work; raise `timeouts."@ + name
        + "` if it is only slow"@
}

/// The report of a command that outran its budget.
pub fn timed_out_message(what: &str, name: &str, secs: u64) -> (r: String)
    ensures
        r@ == timed_out_text(what@, name@, secs),
{
    let mut m = what.to_string();
    m.append(" TIMED OUT after ");
    m.append(decimal_string(secs).as_str());
    m.append("s — a hang looks exactly like slow work; raise `timeouts.");
    m.append(name);
    m.append("` if it is only slow");
    m
}

/// The record of a classified gap, and the path the claim must close.
pub open spec fn gap_md_text(layer: Seq<char>, gap: Seq<char>, at: Seq<char>) -> Seq<char> {
    "# Gap\n\n- layer: `"@ + layer + "`\n- claim: "@ + gap + "\n- classified: "@ + at
        + "\n\n## Path this claim must close\n\nrequest -> representation -> operation -> persistent effect -> visible proof\n\n- [ ] request\n- [ ] representation\n- [ ] operation\n- [ ] persistent effect\n- [ ] visible proof\n- [ ] deterministic check added\n"@
}

/// The record of a classified gap.
pub fn gap_md(layer: &str, gap: &str, at: &str) -> (r: String)
    ensures
        r@ == gap_md_text(layer@, gap@, at@),
{
    let mut m = "# Gap\n\n- layer: `".to_string();
    m.append(layer);
    m.append("`\n- claim: ");
    m.append(gap);
    m.append("\n- classified: ");
    m.append(at);
    m.append(
        "\n\n## Path this claim must close\n\nrequest -> representation -> operation -> persistent effect -> visible proof\n\n- [ ] request\n- [ ] representation\n- [ ] operation\n- [ ] persistent effect\n- [ ] visible proof\n- [ ] deterministic check added\n",
    );
    m
}

/// The items of a proposal list, one checkbox each.
pub open spec fn checklist(items: Seq<Seq<char>>) -> Seq<char>
    decreases items.len(),
{
    if items.len() == 0 {
        Seq::empty()
    } else {
        checklist(items.drop_last()) + "- [ ] "@ + items.last() + "\n"@
    }
}

/// The block `goals/proposals.md` gains when a round changes propose-level
/// files: the round, when, its gap and layer, and the changes for a person
/// to decide.
pub open spec fn proposals_text(s: JsonV, items: Seq<Seq<char>>, at: Seq<char>) -> Seq<char> {
    let (n, gap, layer) = match open_round_of(s) {
        Some(r) => (num_or(member(r, "n"@), 0), text_or(member(r, "gap"@), "unclassified"@), text_or(member(r, "layer"@), "none"@)),
        None => (0u64, "unclassified"@, "none"@),
    };
    "\n## Round "@ + zero_padded(n as nat, 3) + " — "@ + at + "\nGap: "@ + gap + " (layer `"@ + layer + "`)\n\n"@ + checklist(items)
}

impl GoalLoop {
    /// The block `goals/proposals.md` gains for `items`, at `at`.
    pub fn proposals_block(&self, items: &Vec<String>, at: &str) -> (r: String)
        ensures
            r@ == proposals_text(self.state@, texts(items@), at@),
    {
        let (n, gap, layer) = match self.open_round() {
            Ok(r) => (num_field(r, "n", 0), text_field(r, "gap", "unclassified"), text_field(r, "layer", "none")),
            Err(_) => (0u64, "unclassified".to_string(), "none".to_string()),
        };
        let mut m = "\n## Round ".to_string();
        m.append(padded(n, 3).as_str());
        m.append(" — ");
        m.append(at);
        m.append("\nGap: ");
        m.append(gap.as_str());
        m.append(" (layer `");
        m.append(layer.as_str());
        m.append("`)\n\n");
        let ghost head = m@;
        proof {
            lemma_texts(items@);
            assert(texts(items@).take(0) =~= Seq::<Seq<char>>::empty());
            assert(head + checklist(Seq::empty()) =~= head);
        }
        for i in 0..items.len()
            invariant
                texts(items@).len() == items@.len(),
                forall|k: int| 0 <= k < items@.len() ==> #[trigger] texts(items@)[k] == items@[k]@,
                m@ == head + checklist(texts(items@).take(i as int)),
        {
            m.append("- [ ] ");
            m.append(items[i].as_str());
            m.append("\n");
            proof {
                assert(texts(items@).take(i + 1).drop_last() =~= texts(items@).take(i as int));
                assert(m@ =~= head + checklist(texts(items@).take(i + 1)));
            }
        }
        proof {
            assert(texts(items@).take(items@.len() as int) =~= texts(items@));
        }
        m
    }
}

/// What preflight finds the world to be: `unchecked` with no health command
/// (every score is then suspect), `unhealthy` when the reset or the health
/// check fails, `healthy` otherwise. `reset` is the reset's exit code when
/// one ran; `health` the health check's when it ran.
pub open spec fn world_of(health_configured: bool, reset: Option<i32>, health: Option<i32>) -> Seq<char> {
    if !health_configured {
        "unchecked"@
    } else if reset matches Some(c) && c != 0 {
        "unhealthy"@
    } else if health == Some(0i32) {
        "healthy"@
    } else {
        "unhealthy"@
    }
}

/// What preflight finds the world to be.
pub fn world_verdict(health_configured: bool, reset: Option<i32>, health: Option<i32>) -> (r: &'static str)
    ensures
        r@ == world_of(health_configured, reset, health),
{
    if !health_configured {
        return "unchecked";
    }
    match reset {
        Some(c) => if c != 0 {
            return "unhealthy";
        },
        None => {},
    }
    match health {
        Some(0) => "healthy",
        _ => "unhealthy",
    }
}

/// What the floor says: `unconfigured` with no floor command, `green` when
/// it passed, `red` otherwise — a floor that outran its budget is red, not a
/// wait.
pub open spec fn floor_of(configured: bool, code: i32) -> Seq<char> {
    if !configured {
        "unconfigured"@
    } else if code == 0 {
        "green"@
    } else {
        "red"@
    }
}

/// What the floor says.
pub fn floor_verdict(configured: bool, code: i32) -> (r: &'static str)
    ensures
        r@ == floor_of(configured, code),
{
    if !configured {
        "unconfigured"
    } else if code == 0 {
        "green"
    } else {
        "red"
    }
}

/// The exit code of `otogo floor`: proceed when green or unconfigured.
pub fn floor_exit(verdict: &str) -> (r: i32)
    ensures
        r == (if verdict@ == "green"@ || verdict@ == "unconfigured"@ {
            0i32
        } else {
            1i32
        }),
{
    if crate::guard::same_str(verdict, "green") || crate::guard::same_str(verdict, "unconfigured") {
        0
    } else {
        1
    }
}

/// The exit code of `otogo preflight`, and of `otogo open` once the world was
/// checked: NO_SCORE (2) when the world is unhealthy — infrastructure trouble is
/// not evidence — else 0, a red floor included.
pub fn world_exit(world: &str) -> (r: i32)
    ensures
        r == (if world@ == "unhealthy"@ {
            2i32
        } else {
            0i32
        }),
{
    if crate::guard::same_str(world, "unhealthy") {
        2
    } else {
        0
    }
}

/// The exit code of `otogo drive`: 0 when the driver exited 0, else 1.
pub fn drive_exit(code: i32) -> (r: i32)
    ensures
        r == (if code == 0 {
            0i32
        } else {
            1i32
        }),
{
    if code == 0 {
        0
    } else {
        1
    }
}

/// The exit code of `otogo guard`: 1 when the round crossed a boundary, else 0.
pub fn guard_exit(v: &crate::guard::Verdict) -> (r: i32)
    ensures
        r == (if v@.violations.len() == 0 {
            0i32
        } else {
            1i32
        }),
{
    if v.ok() {
        0
    } else {
        1
    }
}

/// The exit code of `otogo classify`: 2 for a `world` or `harness` gap, which
/// is not a product round, else 0.
pub fn classify_exit(layer: &str) -> (r: i32)
    ensures
        r == (if crate::round::escalates(layer@) {
            2i32
        } else {
            0i32
        }),
{
    if crate::round::is_escalation(layer) {
        2
    } else {
        0
    }
}

/// The exit code of `otogo verify`: NO_SCORE (2) when the world is unhealthy
/// (nothing else ran); else 1 when the floor went red, the repair having
/// erased earned behaviour; else what the guard gave.
pub fn verify_exit(world: &str, floor_after: &str, guard: i32) -> (r: i32)
    ensures
        r == (if world@ == "unhealthy"@ {
            2i32
        } else if floor_after@ == "red"@ {
            1i32
        } else {
            guard
        }),
{
    if crate::guard::same_str(world, "unhealthy") {
        2
    } else if crate::guard::same_str(floor_after, "red") {
        1
    } else {
        guard
    }
}

/// The exit code of a command that was refused (a spent batch, a round still
/// open, a missing snapshot): 2, a person decides.
pub fn refusal_exit(_e: &crate::control::LoopError) -> (r: i32)
    ensures
        r == 2i32,
{
    2
}

/// The last `k` lines of `out` once trailing white space is dropped, in
/// order: what the scorer said last.
pub open spec fn last_lines_of(out: Seq<char>, k: nat) -> Seq<Seq<char>> {
    let ls = lines_of(trimmed_end(out));
    ls.skip(ls.len() - shown_count(ls.len(), k))
}

/// The last `k` lines a command printed.
pub fn last_lines(out: &str, k: usize) -> (r: Vec<String>)
    ensures
        texts(r@) == last_lines_of(out@, k as nat),
{
    let t = trim_end(out);
    let ls = lines(&chars_of(t.as_str()));
    let ghost lv = lines_of(t@);
    let n = ls.len();
    let c = if n < k { n } else { k };
    let start = n - c;
    let mut v: Vec<String> = Vec::new();
    for i in start..n
        invariant
            n == ls@.len(),
            lv.len() == n,
            lv == lines_of(t@),
            forall|j: int| 0 <= j < n ==> #[trigger] ls@[j]@ == lv[j],
            start <= n,
            texts(v@) == lv.subrange(start as int, i as int),
    {
        push_text(&mut v, string_of(&ls[i]));
        proof {
            assert(texts(v@) =~= lv.subrange(start as int, i + 1));
        }
    }
    proof {
        assert(lv.skip(start as int) =~= lv.subrange(start as int, n as int));
    }
    v
}

/// The status report lists the most recent rounds newest first: under the
/// `Recent` heading (after the header, the open-round lines and the batch
/// line), its `i`-th line is the `i`-th newest round of the history, for each
/// of the (at most five) rounds it shows.
pub proof fn lemma_status_lists_newest_rounds_first(root: Seq<char>, s: JsonV, budget: u64, i: int)
    requires
        items_of(member(s, "history"@)).len() > 0,
        0 <= i < shown_count(items_of(member(s, "history"@)).len(), 5),
    ensures
        ({
            let h = items_of(member(s, "history"@));
            let r = status_report(root, s, budget);
            let p: int = if open_round_of(s) is Some {
                7
            } else {
                5
            };
            &&& r[p] == SayV::Head("Recent"@)
            &&& r[p + 1 + i] == SayV::Note(recent_line(h[h.len() - 1 - i]))
        }),
{
    let h = items_of(member(s, "history"@));
    let head = seq![SayV::Head("otogo"@), SayV::Note(root)] + (match open_round_of(s) {
        Some(r) => round_report(r),
        None => seq![SayV::Head("No open round"@), SayV::Note("next: otogo open <request-id>"@)],
    }) + seq![
        SayV::Head(
            "Batch "@ + decimal(num_or(member(s, "batch"@), 1) as nat) + ": "@ + decimal(num_or(member(s, "rounds_in_batch"@), 0) as nat)
                + "/"@ + decimal(budget as nat) + " rounds"@,
        ),
    ];
    let rec = recent_report(h);
    let rest = friction_report(items_of(member(s, "friction"@))) + seq![SayV::Blank];
    let p: int = if open_round_of(s) is Some {
        7
    } else {
        5
    };
    assert(head.len() == p);
    assert(status_report(root, s, budget) =~= head + rec + rest);
    assert(rec.len() == 1 + shown_count(h.len(), 5));
    assert((head + rec + rest)[p] == rec[0]);
    assert((head + rec + rest)[p + 1 + i] == rec[1 + i]);
}

/// The status report shows no more than those rounds, and no `Recent`
/// heading when no round has closed: after the rounds it lists comes a
/// heading or the closing blank, never another round; with an empty history
/// the line after the batch is no `Recent` heading.
pub proof fn lemma_status_lists_no_other_round(root: Seq<char>, s: JsonV, budget: u64)
    ensures
        ({
            let h = items_of(member(s, "history"@));
            let r = status_report(root, s, budget);
            let p: int = if open_round_of(s) is Some {
                7
            } else {
                5
            };
            &&& h.len() > 0 ==> (r[p + 1 + shown_count(h.len(), 5)] is Head || r[p + 1 + shown_count(h.len(), 5)] is Blank)
            &&& h.len() == 0 ==> r[p] != SayV::Head("Recent"@)
        }),
{
    let h = items_of(member(s, "history"@));
    let head = seq![SayV::Head("otogo"@), SayV::Note(root)] + (match open_round_of(s) {
        Some(r) => round_report(r),
        None => seq![SayV::Head("No open round"@), SayV::Note("next: otogo open <request-id>"@)],
    }) + seq![
        SayV::Head(
            "Batch "@ + decimal(num_or(member(s, "batch"@), 1) as nat) + ": "@ + decimal(num_or(member(s, "rounds_in_batch"@), 0) as nat)
                + "/"@ + decimal(budget as nat) + " rounds"@,
        ),
    ];
    let rec = recent_report(h);
    let fr = friction_report(items_of(member(s, "friction"@)));
    let rest = fr + seq![SayV::Blank];
    let p: int = if open_round_of(s) is Some {
        7
    } else {
        5
    };
    assert(head.len() == p);
    assert(status_report(root, s, budget) =~= head + rec + rest);
    assert(rest[0] is Head || rest[0] is Blank);
    if h.len() > 0 {
        assert(rec.len() == 1 + shown_count(h.len(), 5));
        assert((head + rec + rest)[p + 1 + shown_count(h.len(), 5)] == rest[0]);
    } else {
        assert(rec.len() == 0);
        assert((head + rec + rest)[p] == rest[0]);
        reveal_strlit("Recent");
        reveal_strlit("Repeated friction (earns a harness change)");
        if fr.len() > 0 {
            assert(rest[0] == SayV::Head("Repeated friction (earns a harness change)"@));
            assert("Repeated friction (earns a harness change)"@.len() != "Recent"@.len());
        }
    }
}

} // verus!
