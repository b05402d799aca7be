//! The stone a round is judged against: which files are guarded, what the
//! snapshot records when a round opens, and the check of a round against it.
//!
//! The authority is captured with the hashes: a round is judged by the rules
//! in force when it opened, never by rules the round itself edited — a loop
//! that can empty its own `frozen` list has no authority model at all.

use vstd::prelude::*;
use crate::control::{walk_keeps, walk_keeps_spec, Res, LoopError};
use crate::glob::{GlobSet, first_match};
use crate::goal_loop::{GoalLoop, attribution_limit_of};
use crate::guard::{Authority, AuthorityV, Observed, Verdict, authority_of, judge, judged, observed_views, text_array};
use crate::json::{Json, JsonV, member, well_formed, nesting_at_most, json_text_value, json_error_text, parse_json, reads_as, entry_value, put_entry, find_key, lemma_view_json, lemma_view_entries, view_entries};
use crate::round::{put_all, member_or_null, jobj};
use crate::text::{texts, lemma_texts, push_text};

verus! {

/// Whether the guard considers the repository file `rel`. When git can say
/// what it keeps (`visible` is the answer for this file), a file git ignores
/// is left out — unless it is frozen or a measure: a gitignored fixture is
/// still the exam. When git cannot answer, everything is guarded, which is
/// the safe direction to fail. Round evidence and bookkeeping never are.
pub open spec fn guarded(visible: Option<bool>, frozen: Seq<Seq<char>>, measure: Seq<Seq<char>>, rel: Seq<char>) -> bool {
    &&& walk_keeps_spec(rel)
    &&& (visible != Some(false) || first_match(frozen, rel) is Some || first_match(measure, rel) is Some)
}

/// Whether the guard considers the repository file `rel`.
pub fn guards(visible: Option<bool>, frozen: &GlobSet, measure: &GlobSet, rel: &str) -> (r: bool)
    ensures
        r == guarded(visible, frozen@, measure@, rel@),
{
    if !walk_keeps(rel) {
        return false;
    }
    match visible {
        Some(false) => frozen.is_match(rel) || measure.is_match(rel),
        _ => true,
    }
}

/// The files among `files` that `measure` matches, in order.
pub open spec fn measured(files: Seq<(Seq<char>, Seq<char>)>, measure: Seq<Seq<char>>) -> Seq<Seq<char>>
    decreases files.len(),
{
    if files.len() == 0 {
        Seq::empty()
    } else if first_match(measure, files.last().0) is Some {
        measured(files.drop_last(), measure).push(files.last().0)
    } else {
        measured(files.drop_last(), measure)
    }
}

/// The digests recorded by path, each path once (a later digest for the
/// same path replaces an earlier one).
pub open spec fn digests(files: Seq<(Seq<char>, Seq<char>)>) -> JsonV {
    JsonV::Object(put_all(Seq::empty(), Seq::new(files.len(), |i: int| (files[i].0, JsonV::Str(files[i].1)))))
}

/// What a snapshot records when a round opens: the digest of every guarded
/// file, which of them are measures, and the authority and measure rules in
/// force.
pub open spec fn snapshot_of(files: Seq<(Seq<char>, Seq<char>)>, measure: Seq<Seq<char>>, cfg: JsonV) -> JsonV {
    jobj(
        seq![
            ("hashes"@, digests(files)),
            ("measure_files"@, text_array(measured(files, measure))),
            ("config"@, jobj(seq![("authority"@, member_or_null(cfg, "authority"@)), ("measure"@, member_or_null(cfg, "measure"@))])),
        ],
    )
}

/// The views of a list of (path, digest) pairs.
pub open spec fn file_views(files: Seq<(String, String)>) -> Seq<(Seq<char>, Seq<char>)> {
    Seq::new(files.len(), |i: int| (files[i].0@, files[i].1@))
}

fn member_copy(j: &Json, k: &str) -> (r: Json)
    ensures
        r@ == member_or_null(j@, k@),
{
    match j.get(k) {
        Some(v) => v.copy(),
        None => Json::Null,
    }
}

impl GoalLoop {
    /// The snapshot of a round opening now, from the guarded files and their
    /// digests; also gives the measure files, whose text the caller keeps a
    /// copy of.
    pub fn snapshot(&self, files: &Vec<(String, String)>) -> (r: (Json, Vec<String>))
        ensures
            r.0@ == snapshot_of(
                file_views(files@),
                crate::guard::globs_of(crate::json::member2(self.config@, "measure"@, "globs"@)),
                self.config@,
            ),
            texts(r.1@) == measured(
                file_views(files@),
                crate::guard::globs_of(crate::json::member2(self.config@, "measure"@, "globs"@)),
            ),
            well_formed(self.config@) && nesting_at_most(self.config@, 126) ==> well_formed(r.0@)
                && nesting_at_most(r.0@, 127),
    {
        let measure = self.measure();
        let ghost fv = file_views(files@);
        let ghost entries = Seq::new(fv.len(), |i: int| (fv[i].0, JsonV::Str(fv[i].1)));
        let mut hashes = Json::object();
        let mut measure_files: Vec<String> = Vec::new();
        let n = files.len();
        proof {
            assert(entries.take(0) =~= Seq::<(Seq<char>, JsonV)>::empty());
            assert(fv.take(0) =~= Seq::<(Seq<char>, Seq<char>)>::empty());
        }
        for i in 0..n
            invariant
                n == files@.len(),
                fv == file_views(files@),
                fv.len() == n,
                entries == Seq::new(fv.len(), |k: int| (fv[k].0, JsonV::Str(fv[k].1))),
                measure@ == crate::guard::globs_of(crate::json::member2(self.config@, "measure"@, "globs"@)),
                hashes@ == JsonV::Object(put_all(Seq::empty(), entries.take(i as int))),
                texts(measure_files@) == measured(fv.take(i as int), measure@),
        {
            let (rel, digest) = (&files[i].0, &files[i].1);
            proof {
                lemma_view_json(hashes);
                assert(entries.take(i + 1).drop_last() =~= entries.take(i as int));
                assert(entries.take(i + 1).last() == (rel@, JsonV::Str(digest@)));
                assert(fv.take(i + 1).drop_last() =~= fv.take(i as int));
                assert(fv.take(i + 1).last() == (rel@, digest@));
            }
            hashes.set(rel.as_str(), Json::text(digest.as_str()));
            if measure.is_match(rel.as_str()) {
                push_text(&mut measure_files, rel.clone());
            }
        }
        proof {
            assert(entries.take(n as int) =~= entries);
            assert(fv.take(n as int) =~= fv);
        }
        let mut cfg: Vec<(String, Json)> = Vec::new();
        cfg.push(("authority".to_string(), member_copy(&self.config, "authority")));
        cfg.push(("measure".to_string(), member_copy(&self.config, "measure")));
        let listed = crate::guard::texts_json(&measure_files);
        let mut top: Vec<(String, Json)> = Vec::new();
        top.push(("hashes".to_string(), hashes));
        top.push(("measure_files".to_string(), listed));
        top.push(("config".to_string(), Json::Object(cfg)));
        proof {
            lemma_view_entries(cfg@);
            lemma_view_entries(top@);
            assert(view_entries(cfg@) =~= seq![
                ("authority"@, member_or_null(self.config@, "authority"@)),
                ("measure"@, member_or_null(self.config@, "measure"@)),
            ]);
            lemma_view_json(Json::Object(cfg));
            assert(view_entries(top@) =~= snapshot_of(fv, measure@, self.config@)->Object_0);
            if well_formed(self.config@) && nesting_at_most(self.config@, 126) {
                lemma_snapshot_well_formed(fv, measure@, self.config@);
            }
        }
        (Json::Object(top), measure_files)
    }
}

/// The configuration a snapshot judges by: the one it recorded, or — for a
/// snapshot that recorded none — the authority and measures in force now.
pub open spec fn judged_config(snap: JsonV, cfg: JsonV) -> JsonV {
    match member(snap, "config"@) {
        Some(c) => c,
        None => jobj(seq![("authority"@, member_or_null(cfg, "authority"@)), ("measure"@, member_or_null(cfg, "measure"@))]),
    }
}

/// The digests a snapshot recorded (`null` when it recorded none).
pub open spec fn recorded_hashes(snap: JsonV) -> JsonV {
    member_or_null(snap, "hashes"@)
}

/// The refusal when a round's snapshot at `snap_path` cannot be read.
pub open spec fn missing_snapshot_message(snap_path: Seq<char>) -> Seq<char> {
    snap_path + " missing — was the round opened?"@
}

/// Reads the snapshot at `snap_path` from its text, `None` when the file could
/// not be read: a missing snapshot is refused naming the file, text that is not
/// JSON with the parser's message.
pub fn read_snapshot(snap_path: &str, text: Option<&str>) -> (r: Res<Json>)
    ensures
        match text {
            None => r matches Err(e) && e.0@ == missing_snapshot_message(snap_path@),
            Some(t) => match json_text_value(t@) {
                Some(v) => r matches Ok(j) && j@ == v,
                None => r matches Err(e) && e.0@ == json_error_text(t@),
            },
        },
{
    match text {
        None => {
            let mut m = snap_path.to_string();
            m.append(" missing — was the round opened?");
            Err(LoopError(m))
        },
        Some(t) => match parse_json(t) {
            Ok(j) => Ok(j),
            Err(e) => Err(LoopError(e)),
        },
    }
}

impl GoalLoop {
    /// The authority a round is judged by: the one its snapshot recorded.
    pub fn snapshot_authority(&self, snap: &Json) -> (a: Authority)
        ensures
            a@ == authority_of(judged_config(snap@, self.config@)),
    {
        match snap.get("config") {
            Some(c) => Authority::from_config(c),
            None => {
                let mut cfg: Vec<(String, Json)> = Vec::new();
                cfg.push(("authority".to_string(), member_copy(&self.config, "authority")));
                cfg.push(("measure".to_string(), member_copy(&self.config, "measure")));
                let c = Json::Object(cfg);
                proof {
                    lemma_view_entries(cfg@);
                    lemma_view_json(c);
                    assert(view_entries(cfg@) =~= judged_config(snap@, self.config@)->Object_0);
                }
                Authority::from_config(&c)
            },
        }
    }

    /// Checks what the round changed against its authority: `files` are the
    /// guarded files as they stand (measures with their snapshot and current
    /// text), `on_disk` every file present now.
    pub fn check(&self, snap: &Json, files: &Vec<Observed>, on_disk: &Vec<String>) -> (v: Verdict)
        ensures
            v@ == judged(
                authority_of(judged_config(snap@, self.config@)),
                observed_views(files@),
                recorded_hashes(snap@),
                texts(on_disk@).to_set(),
                attribution_limit_of(self.config@) as nat,
            ),
    {
        let a = self.snapshot_authority(snap);
        let hashes = member_copy(snap, "hashes");
        judge(&a, files, &hashes, on_disk, self.attribution_limit())
    }
}


/// The files among `found` the walk keeps, in order.
pub open spec fn kept_files(found: Seq<Seq<char>>) -> Seq<Seq<char>>
    decreases found.len(),
{
    if found.len() == 0 {
        Seq::empty()
    } else if walk_keeps_spec(found.last()) {
        kept_files(found.drop_last()).push(found.last())
    } else {
        kept_files(found.drop_last())
    }
}

/// The repository files a walk found (by path relative to the root), as the
/// guard considers them: without round evidence and bookkeeping, each path
/// once, in strictly ascending order of their paths.
pub fn walk_repo(found: &Vec<String>) -> (r: Vec<String>)
    ensures
        crate::text::strictly_sorted(texts(r@)),
        texts(r@).to_set() == kept_files(texts(found@)).to_set(),
{
    proof {
        lemma_texts(found@);
    }
    let ghost fv = texts(found@);
    let mut sorted: Vec<Vec<char>> = Vec::new();
    let n = found.len();
    proof {
        assert(fv.take(0) =~= Seq::<Seq<char>>::empty());
        assert(crate::text::views_of(sorted@) =~= Seq::<Seq<char>>::empty());
        assert(kept_files(fv.take(0)).to_set() =~= Set::<Seq<char>>::empty());
        assert(crate::text::views_of(sorted@).to_set() =~= Set::<Seq<char>>::empty());
    }
    for i in 0..n
        invariant
            n == found@.len(),
            fv == texts(found@),
            fv.len() == n,
            forall|k: int| 0 <= k < n ==> #[trigger] fv[k] == found@[k]@,
            crate::text::strictly_sorted(crate::text::views_of(sorted@)),
            crate::text::views_of(sorted@).to_set() == kept_files(fv.take(i as int)).to_set(),
    {
        proof {
            assert(fv.take(i + 1).drop_last() =~= fv.take(i as int));
            assert(fv.take(i + 1).last() == found@[i as int]@);
        }
        if walk_keeps(found[i].as_str()) {
            let ghost x = found@[i as int]@;
            crate::text::insert_sorted(&mut sorted, crate::text::chars_of(found[i].as_str()));
            proof {
                assert(kept_files(fv.take(i + 1)) == kept_files(fv.take(i as int)).push(x));
                let ghost kb = kept_files(fv.take(i as int));
                assert(kb.push(x) =~= kb + seq![x]);
                Seq::lemma_to_set_insert_commutes(kb, x);
                assert(kept_files(fv.take(i as int)).push(x).to_set() =~= kept_files(fv.take(i as int)).to_set().insert(x));
            }
        }
    }
    proof {
        assert(fv.take(n as int) =~= fv);
    }
    let mut out: Vec<String> = Vec::new();
    for k in 0..sorted.len()
        invariant
            texts(out@) == crate::text::views_of(sorted@).take(k as int),
    {
        push_text(&mut out, crate::text::string_of(&sorted[k]));
        proof {
            assert(texts(out@) =~= crate::text::views_of(sorted@).take(k + 1));
        }
    }
    proof {
        assert(crate::text::views_of(sorted@).take(sorted@.len() as int) =~= crate::text::views_of(sorted@));
    }
    out
}

/// The non-empty pieces among `ps`, in order.
pub open spec fn nonempty(ps: Seq<Seq<char>>) -> Seq<Seq<char>>
    decreases ps.len(),
{
    if ps.len() == 0 {
        Seq::empty()
    } else if ps.last().len() > 0 {
        nonempty(ps.drop_last()).push(ps.last())
    } else {
        nonempty(ps.drop_last())
    }
}

/// The paths in the output of `git ls-files -z`: NUL-separated, empty
/// pieces dropped.
pub fn git_listing(out: &str) -> (r: Vec<String>)
    ensures
        texts(r@) == nonempty(crate::round::split_from(out@, '\0', 0)),
{
    let ps = crate::round::split_pieces(out, '\0');
    let ghost pv = crate::text::views_of(ps@);
    let mut v: Vec<String> = Vec::new();
    let n = ps.len();
    proof {
        assert(nonempty(pv.take(0)) =~= Seq::<Seq<char>>::empty());
    }
    for i in 0..n
        invariant
            n == ps@.len(),
            pv == crate::text::views_of(ps@),
            texts(v@) == nonempty(pv.take(i as int)),
    {
        proof {
            assert(pv.take(i + 1).drop_last() =~= pv.take(i as int));
            assert(pv.take(i + 1).last() == ps@[i as int]@);
        }
        if ps[i].len() > 0 {
            push_text(&mut v, crate::text::string_of(&ps[i]));
        }
    }
    proof {
        assert(pv.take(n as int) =~= pv);
    }
    v
}


proof fn lemma_member2_through_null(cfg: JsonV, k1: Seq<char>, k2: Seq<char>)
    ensures
        member(member_or_null(cfg, k1), k2) == crate::json::member2(cfg, k1, k2),
{
}

/// A round is judged by the rules in force when it opened: whatever the
/// configuration says when the round is checked, the authority is the one
/// the snapshot recorded from the configuration at `open`.
pub proof fn lemma_authority_is_captured_at_open(
    files: Seq<(Seq<char>, Seq<char>)>,
    measure: Seq<Seq<char>>,
    at_open: JsonV,
    now: JsonV,
)
    ensures
        authority_of(judged_config(snapshot_of(files, measure, at_open), now)) == authority_of(at_open),
{
    reveal_strlit("hashes");
    reveal_strlit("measure_files");
    reveal_strlit("config");
    reveal_strlit("authority");
    reveal_strlit("measure");
    let snap = snapshot_of(files, measure, at_open);
    let es = snap->Object_0;
    crate::json::lemma_find_key_step(es, "config"@, 0);
    crate::json::lemma_find_key_step(es, "config"@, 1);
    crate::json::lemma_find_key_step(es, "config"@, 2);
    assert("hashes"@ != "config"@) by {
        assert("hashes"@[0] != "config"@[0]);
    }
    assert("measure_files"@ != "config"@) by {
        assert("measure_files"@.len() != "config"@.len());
    }
    let c = jobj(seq![("authority"@, member_or_null(at_open, "authority"@)), ("measure"@, member_or_null(at_open, "measure"@))]);
    assert(member(snap, "config"@) == Some(c));
    let ces = c->Object_0;
    assert("authority"@ != "measure"@) by {
        assert("authority"@[0] != "measure"@[0]);
    }
    crate::json::lemma_find_key_step(ces, "authority"@, 0);
    crate::json::lemma_find_key_step(ces, "measure"@, 0);
    crate::json::lemma_find_key_step(ces, "measure"@, 1);
    assert(member(c, "authority"@) == Some(member_or_null(at_open, "authority"@)));
    assert(member(c, "measure"@) == Some(member_or_null(at_open, "measure"@)));
    lemma_member2_through_null(at_open, "authority"@, "frozen"@);
    lemma_member2_through_null(at_open, "authority"@, "propose"@);
    lemma_member2_through_null(at_open, "measure"@, "globs"@);
    lemma_member2_through_null(at_open, "measure"@, "json_ledgers"@);
    lemma_member2_through_null(at_open, "measure"@, "append_only"@);
    assert(crate::json::member2(c, "authority"@, "frozen"@) == crate::json::member2(at_open, "authority"@, "frozen"@));
    assert(crate::json::member2(c, "authority"@, "propose"@) == crate::json::member2(at_open, "authority"@, "propose"@));
    assert(crate::json::member2(c, "measure"@, "globs"@) == crate::json::member2(at_open, "measure"@, "globs"@));
    assert(crate::json::member2(c, "measure"@, "json_ledgers"@) == crate::json::member2(at_open, "measure"@, "json_ledgers"@));
    assert(crate::json::member2(c, "measure"@, "append_only"@) == crate::json::member2(at_open, "measure"@, "append_only"@));
}

/// Each path once among the (path, digest) pairs.
pub open spec fn distinct_paths(files: Seq<(Seq<char>, Seq<char>)>) -> bool {
    forall|i: int, j: int| 0 <= i < j < files.len() ==> #[trigger] files[i].0 != #[trigger] files[j].0
}

/// The entries the digests are built from.
pub open spec fn digest_entries(files: Seq<(Seq<char>, Seq<char>)>) -> Seq<(Seq<char>, JsonV)> {
    Seq::new(files.len(), |i: int| (files[i].0, JsonV::Str(files[i].1)))
}

/// Each recorded file's digest is the one taken for it.
pub proof fn lemma_digest_is_recorded(files: Seq<(Seq<char>, Seq<char>)>, i: int)
    requires
        distinct_paths(files),
        0 <= i < files.len(),
    ensures
        crate::guard::recorded_digest(digests(files), files[i].0) == Some(files[i].1),
    decreases files.len(),
{
    let e = digest_entries(files);
    let n = files.len();
    let rest = files.drop_last();
    assert(digest_entries(rest) =~= e.drop_last());
    let prev = put_all(Seq::empty(), e.drop_last());
    assert(put_all(Seq::empty(), e) == put_entry(prev, e.last().0, e.last().1));
    crate::json::lemma_put_entry(prev, e.last().0, e.last().1, files[i].0);
    if i < n - 1 {
        assert forall|a: int, b: int| 0 <= a < b < rest.len() implies #[trigger] rest[a].0 != #[trigger] rest[b].0 by {
            assert(rest[a] == files[a] && rest[b] == files[b]);
        }
        lemma_digest_is_recorded(rest, i);
        assert(rest[i] == files[i]);
        assert(files[i].0 != files[n - 1].0);
    }
}

/// Every path the digests record is one of the files'.
pub proof fn lemma_digest_paths(files: Seq<(Seq<char>, Seq<char>)>, j: int)
    requires
        0 <= j < crate::guard::recorded_paths(digests(files)).len(),
    ensures
        exists|i: int| 0 <= i < files.len() && #[trigger] files[i].0 == crate::guard::recorded_paths(digests(files))[j],
    decreases files.len(),
{
    let e = digest_entries(files);
    let n = files.len();
    if n > 0 {
        let rest = files.drop_last();
        assert(digest_entries(rest) =~= e.drop_last());
        let prev = put_all(Seq::empty(), e.drop_last());
        let k = e.last().0;
        assert(put_all(Seq::empty(), e) == put_entry(prev, k, e.last().1));
        let key = crate::guard::recorded_paths(digests(files))[j];
        crate::json::lemma_find_key_from(prev, k, 0);
        match find_key(prev, k) {
            Some(m) => {
                if key != k {
                    assert(prev.update(m, (k, e.last().1))[j] == prev[j]);
                    assert(crate::guard::recorded_paths(digests(rest))[j] == key);
                    lemma_digest_paths(rest, j);
                    let i = choose|i: int| 0 <= i < rest.len() && #[trigger] rest[i].0 == key;
                    assert(files[i] == rest[i]);
                } else {
                    assert(files[n - 1].0 == key);
                }
            },
            None => {
                if j < prev.len() {
                    assert(prev.push((k, e.last().1))[j] == prev[j]);
                    assert(crate::guard::recorded_paths(digests(rest))[j] == key);
                    lemma_digest_paths(rest, j);
                    let i = choose|i: int| 0 <= i < rest.len() && #[trigger] rest[i].0 == key;
                    assert(files[i] == rest[i]);
                } else {
                    assert(files[n - 1].0 == key);
                }
            },
        }
    }
}

/// A repository unchanged since its snapshot passes its guard: when the
/// guarded files are the snapshot's files with the digests it recorded, and
/// every one of them is still present, the verdict is empty — no violation,
/// proposal, warning, free change or appended measure — whatever the
/// configuration says now.
pub proof fn lemma_unchanged_repository_passes(
    files: Seq<(Seq<char>, Seq<char>)>,
    measure: Seq<Seq<char>>,
    at_open: JsonV,
    now: JsonV,
    fs: Seq<crate::guard::ObservedV>,
    present: Set<Seq<char>>,
    limit: nat,
)
    requires
        distinct_paths(files),
        fs.len() == files.len(),
        forall|i: int| 0 <= i < fs.len() ==> #[trigger] fs[i].rel == files[i].0 && fs[i].digest == files[i].1,
        forall|i: int| 0 <= i < files.len() ==> present.contains(#[trigger] files[i].0),
    ensures
        ({
            let snap = snapshot_of(files, measure, at_open);
            judged(authority_of(judged_config(snap, now)), fs, recorded_hashes(snap), present, limit)
                == crate::guard::empty_verdict()
        }),
{
    reveal_strlit("hashes");
    let snap = snapshot_of(files, measure, at_open);
    crate::json::lemma_find_key_step(snap->Object_0, "hashes"@, 0);
    assert(recorded_hashes(snap) == digests(files));
    let h = digests(files);
    assert forall|i: int| 0 <= i < fs.len() implies crate::guard::recorded_digest(h, #[trigger] fs[i].rel) == Some(fs[i].digest) by {
        lemma_digest_is_recorded(files, i);
    }
    assert forall|j: int| 0 <= j < crate::guard::recorded_paths(h).len() implies present.contains(
        #[trigger] crate::guard::recorded_paths(h)[j],
    ) by {
        lemma_digest_paths(files, j);
    }
    crate::guard::lemma_unchanged_round_is_clean(authority_of(judged_config(snap, now)), fs, h, present, limit);
}

/// A repository unchanged since its snapshot passes its guard when the
/// snapshot is judged as it reads back from its file (`json_file_text` of a
/// well-formed snapshot reads back, through `read_snapshot`, as a value it
/// `reads_as`): for any value `reread` that the written snapshot reads back as, when the guarded files are the
/// snapshot's files with the digests it recorded and every one of them is
/// still present, the verdict is empty — whatever the configuration says now.
pub proof fn lemma_reread_unchanged_repository_passes(
    files: Seq<(Seq<char>, Seq<char>)>,
    measure: Seq<Seq<char>>,
    at_open: JsonV,
    now: JsonV,
    fs: Seq<crate::guard::ObservedV>,
    present: Set<Seq<char>>,
    limit: nat,
    reread: JsonV,
)
    requires
        distinct_paths(files),
        fs.len() == files.len(),
        forall|i: int| 0 <= i < fs.len() ==> #[trigger] fs[i].rel == files[i].0 && fs[i].digest == files[i].1,
        forall|i: int| 0 <= i < files.len() ==> present.contains(#[trigger] files[i].0),
        reads_as(snapshot_of(files, measure, at_open), reread),
    ensures
        judged(authority_of(judged_config(reread, now)), fs, recorded_hashes(reread), present, limit)
            == crate::guard::empty_verdict(),
{
    reveal_strlit("hashes");
    let snap = snapshot_of(files, measure, at_open);
    let es = snap->Object_0;
    let ws = reread->Object_0;
    assert(es[0].0 == "hashes"@);
    let h = digests(files);
    assert(es[0].1 == h);
    let x = entry_value(ws, "hashes"@)->Some_0;
    assert(entry_value(ws, es[0].0) matches Some(y) && reads_as(es[0].1, y));
    assert(recorded_hashes(reread) == x);
    assert(reads_as(h, x));
    let de = h->Object_0;
    let xs = x->Object_0;
    assert forall|i: int| 0 <= i < fs.len() implies crate::guard::recorded_digest(x, #[trigger] fs[i].rel) == Some(fs[i].digest) by {
        lemma_digest_is_recorded(files, i);
        let k = files[i].0;
        crate::json::lemma_find_key_from(de, k, 0);
        let m = find_key(de, k)->Some_0;
        assert(de[m].0 == k);
        assert(entry_value(xs, de[m].0) matches Some(y) && reads_as(de[m].1, y));
    }
    assert forall|j: int| 0 <= j < crate::guard::recorded_paths(x).len() implies present.contains(
        #[trigger] crate::guard::recorded_paths(x)[j],
    ) by {
        let k = xs[j].0;
        assert(crate::guard::recorded_paths(x)[j] == k);
        crate::json::lemma_find_key_from(xs, k, 0);
        assert(entry_value(xs, k) is Some);
        assert(entry_value(de, k) is Some);
        crate::json::lemma_find_key_from(de, k, 0);
        let m = find_key(de, k)->Some_0;
        assert(crate::guard::recorded_paths(h)[m] == k);
        lemma_digest_paths(files, m);
        let i = choose|i: int| 0 <= i < files.len() && #[trigger] files[i].0 == crate::guard::recorded_paths(h)[m];
        assert(present.contains(files[i].0));
    }
    crate::guard::lemma_unchanged_round_is_clean(authority_of(judged_config(reread, now)), fs, x, present, limit);
}

/// Setting string members keeps entries well formed and string-valued.
proof fn lemma_put_all_strings(es: Seq<(Seq<char>, JsonV)>, more: Seq<(Seq<char>, JsonV)>)
    requires
        crate::json::entries_well_formed(es),
        forall|i: int| 0 <= i < es.len() ==> #[trigger] es[i].1 is Str,
        forall|i: int| 0 <= i < more.len() ==> #[trigger] more[i].1 is Str,
    ensures
        crate::json::entries_well_formed(put_all(es, more)),
        forall|i: int| 0 <= i < put_all(es, more).len() ==> #[trigger] put_all(es, more)[i].1 is Str,
    decreases more.len(),
{
    if more.len() > 0 {
        let rest = more.drop_last();
        assert forall|i: int| 0 <= i < rest.len() implies #[trigger] rest[i].1 is Str by {
            assert(rest[i] == more[i]);
        }
        lemma_put_all_strings(es, rest);
        let prev = put_all(es, rest);
        let (k, v) = more.last();
        assert(v is Str);
        crate::json::lemma_put_entry_well_formed(prev, k, v);
        crate::json::lemma_find_key_from(prev, k, 0);
        let next = put_entry(prev, k, v);
        assert forall|i: int| 0 <= i < next.len() implies #[trigger] next[i].1 is Str by {
            if next[i] != (k, v) {
                assert(next[i] == prev[i]);
            }
        }
    }
}

/// The snapshot of distinct files under a well-formed configuration nested
/// at most 126 levels deep is itself well formed and nested at most 127 levels
/// deep — so it reads back from its file.
pub proof fn lemma_snapshot_well_formed(files: Seq<(Seq<char>, Seq<char>)>, measure: Seq<Seq<char>>, cfg: JsonV)
    requires
        well_formed(cfg),
        nesting_at_most(cfg, 126),
    ensures
        well_formed(snapshot_of(files, measure, cfg)),
        nesting_at_most(snapshot_of(files, measure, cfg), 127),
{
    reveal_strlit("hashes");
    reveal_strlit("measure_files");
    reveal_strlit("config");
    reveal_strlit("authority");
    reveal_strlit("measure");
    let de = digest_entries(files);
    assert(crate::json::entries_well_formed(Seq::<(Seq<char>, JsonV)>::empty()));
    lemma_put_all_strings(Seq::empty(), de);
    let h = digests(files);
    assert(de == Seq::new(files.len(), |i: int| (files[i].0, JsonV::Str(files[i].1))));
    let hs = h->Object_0;
    assert(well_formed(h)) by {
        assert forall|i: int| 0 <= i < hs.len() implies well_formed(#[trigger] hs[i].1) by {
            assert(hs[i].1 is Str);
        }
    }
    assert(nesting_at_most(h, 126)) by {
        assert forall|i: int| 0 <= i < hs.len() implies nesting_at_most(#[trigger] hs[i].1, 125) by {
            assert(hs[i].1 is Str);
        }
    }
    let mf = text_array(measured(files, measure));
    let items = mf->Array_0;
    assert(well_formed(mf)) by {
        assert forall|i: int| 0 <= i < items.len() implies well_formed(#[trigger] items[i]) by {
            assert(items[i] is Str);
        }
    }
    assert(nesting_at_most(mf, 126)) by {
        assert forall|i: int| 0 <= i < items.len() implies nesting_at_most(#[trigger] items[i], 125) by {
            assert(items[i] is Str);
        }
    }
    let a = member_or_null(cfg, "authority"@);
    let m = member_or_null(cfg, "measure"@);
    assert(well_formed(a) && nesting_at_most(a, 125)) by {
        if let JsonV::Object(es) = cfg {
            crate::json::lemma_find_key_from(es, "authority"@, 0);
        }
    }
    assert(well_formed(m) && nesting_at_most(m, 125)) by {
        if let JsonV::Object(es) = cfg {
            crate::json::lemma_find_key_from(es, "measure"@, 0);
        }
    }
    let c = jobj(seq![("authority"@, a), ("measure"@, m)]);
    let cs = c->Object_0;
    assert("authority"@ != "measure"@) by {
        assert("authority"@[0] != "measure"@[0]);
    }
    assert(well_formed(c)) by {
        assert forall|i: int| 0 <= i < cs.len() implies well_formed(#[trigger] cs[i].1) by {
            if i == 1 {
                assert(cs[i].1 == m);
            }
        }
    }
    assert(nesting_at_most(c, 126)) by {
        assert forall|i: int| 0 <= i < cs.len() implies nesting_at_most(#[trigger] cs[i].1, 125) by {
            if i == 1 {
                assert(cs[i].1 == m);
            }
        }
    }
    let snap = snapshot_of(files, measure, cfg);
    let ss = snap->Object_0;
    assert("hashes"@ != "measure_files"@) by {
        assert("hashes"@[0] != "measure_files"@[0]);
    }
    assert("hashes"@ != "config"@) by {
        assert("hashes"@[0] != "config"@[0]);
    }
    assert("measure_files"@ != "config"@) by {
        assert("measure_files"@[0] != "config"@[0]);
    }
    assert(well_formed(snap)) by {
        assert forall|i: int| 0 <= i < ss.len() implies well_formed(#[trigger] ss[i].1) by {
            if i == 1 {
                assert(ss[i].1 == mf);
            } else if i == 2 {
                assert(ss[i].1 == c);
            }
        }
    }
    assert(nesting_at_most(snap, 127)) by {
        assert forall|i: int| 0 <= i < ss.len() implies nesting_at_most(#[trigger] ss[i].1, 126) by {
            if i == 1 {
                assert(ss[i].1 == mf);
            } else if i == 2 {
                assert(ss[i].1 == c);
            }
        }
    }
}

} // verus!
