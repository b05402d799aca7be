//! Authority enforcement: the loop may change the product, not the exam.
//!
//!   free    — implementation levers, changed freely inside scope
//!   propose — crosses a boundary; recorded, a person decides
//!   frozen  — the exam: corpus, fixture, score rules, rubric, loop.json
//!
//! Plus one rule that is not a level: measures are APPEND-ONLY. A round may add
//! a rung for a failure it observed; it may not weaken or delete one, because
//! that would let it grade its own repair.

use vstd::prelude::*;
use crate::text::{views_of, decimal_chars as decimal_text, before_char, chars_of, chars_eq, decimal, decimal_chars, insert_sorted, join, joined, lemma_texts, lines, lines_of, prefix_before, push_text, sorted_distinct, strictly_sorted, string_of, texts, lemma_sorted_unique};
use crate::glob::{GlobSet, first_match, string_items};
use crate::json::{Json, JsonV, member2, json_text_value, json_compact_text, compact_text, parse_json, text_of, entry_value, lemma_entry_value_unique, lemma_well_formed_unfold, unique_keys, well_formed, find_key, lemma_find_key_from, lemma_view_entries, lemma_view_items, lemma_view_json, member, view_entries, view_items};

verus! {

/// `idx` places each element of `a` at a position of `b` holding the same
/// value, in strictly increasing order.
pub open spec fn embeds_at<T>(a: Seq<T>, b: Seq<T>, idx: Seq<int>) -> bool {
    &&& idx.len() == a.len()
    &&& forall|i: int| 0 <= i < idx.len() ==> 0 <= #[trigger] idx[i] < b.len() && b[idx[i]] == a[i]
    &&& forall|i: int, j: int| 0 <= i < j < idx.len() ==> #[trigger] idx[i] < #[trigger] idx[j]
}

/// `a` survives in `b`, in order, with only insertions: `a` is a subsequence
/// of `b`.
pub open spec fn is_subsequence<T>(a: Seq<T>, b: Seq<T>) -> bool {
    exists|idx: Seq<int>| embeds_at(a, b, idx)
}

/// Every line of `old` survives in `new`, in order, with only insertions.
pub open spec fn only_appended(old: Seq<char>, new: Seq<char>) -> bool {
    is_subsequence(lines_of(old), lines_of(new))
}

/// No placement of `a[..i]` into `b` puts any element left of where `g`
/// puts it.
pub open spec fn leftmost<T>(a: Seq<T>, b: Seq<T>, g: Seq<int>, i: int) -> bool {
    forall|idx: Seq<int>| #[trigger] embeds_at(a.take(i), b, idx) ==> forall|m: int|
        0 <= m < i ==> idx[m] >= g[m]
}

/// True when every original line survives, in order, with only insertions —
/// i.e. `old` is a subsequence of `new`.
#[verifier::loop_isolation(false)]
pub fn is_pure_append(old: &str, new: &str) -> (r: bool)
    ensures
        r == only_appended(old@, new@),
{
    let a = lines(&chars_of(old));
    let b = lines(&chars_of(new));
    let ghost sa = lines_of(old@);
    let ghost sb = lines_of(new@);
    let mut j: usize = 0;
    let ghost mut g: Seq<int> = Seq::empty();
    let n = a.len();
    for i in 0..n
        invariant
            n == sa.len(),
            a@.len() == sa.len(),
            b@.len() == sb.len(),
            forall|k: int| 0 <= k < a@.len() ==> #[trigger] a@[k]@ == sa[k],
            forall|k: int| 0 <= k < b@.len() ==> #[trigger] b@[k]@ == sb[k],
            j <= sb.len(),
            embeds_at(sa.take(i as int), sb, g),
            i > 0 ==> g[i - 1] == j - 1,
            i == 0 ==> j == 0,
            leftmost(sa, sb, g, i as int),
    {
        let mut k = j;
        while k < b.len() && !chars_eq(&b[k], &a[i])
            invariant
                j <= k <= sb.len(),
                b@.len() == sb.len(),
                i < a@.len(),
                forall|q: int| 0 <= q < b@.len() ==> #[trigger] b@[q]@ == sb[q],
                a@[i as int]@ == sa[i as int],
                forall|q: int| j <= q < k ==> sb[q] != sa[i as int],
            decreases b@.len() - k,
        {
            k = k + 1;
        }
        if k == b.len() {
            proof {
                lemma_greedy_miss(sa, sb, g, i as int, j as int);
            }
            return false;
        }
        proof {
            lemma_greedy_step(sa, sb, g, i as int, j as int, k as int);
            g = g.push(k as int);
        }
        j = k + 1;
    }
    proof {
        assert(sa.take(n as int) =~= sa);
    }
    true
}

proof fn lemma_greedy_miss<T>(a: Seq<T>, b: Seq<T>, g: Seq<int>, i: int, j: int)
    requires
        0 <= i < a.len(),
        0 <= j <= b.len(),
        embeds_at(a.take(i), b, g),
        i > 0 ==> g[i - 1] == j - 1,
        i == 0 ==> j == 0,
        leftmost(a, b, g, i),
        forall|q: int| j <= q < b.len() ==> b[q] != a[i],
    ensures
        !is_subsequence(a, b),
{
    if is_subsequence(a, b) {
        let idx = choose|idx: Seq<int>| embeds_at(a, b, idx);
        let pre = idx.take(i);
        assert(embeds_at(a.take(i), b, pre));
        if i > 0 {
            assert(pre[i - 1] >= g[i - 1]);
            assert(idx[i - 1] < idx[i]);
        }
        assert(j <= idx[i] < b.len());
        assert(b[idx[i]] == a[i]);
    }
}

proof fn lemma_greedy_step<T>(a: Seq<T>, b: Seq<T>, g: Seq<int>, i: int, j: int, k: int)
    requires
        0 <= i < a.len(),
        0 <= j <= k < b.len(),
        b[k] == a[i],
        embeds_at(a.take(i), b, g),
        i > 0 ==> g[i - 1] == j - 1,
        i == 0 ==> j == 0,
        leftmost(a, b, g, i),
        forall|q: int| j <= q < k ==> b[q] != a[i],
    ensures
        embeds_at(a.take(i + 1), b, g.push(k)),
        leftmost(a, b, g.push(k), i + 1),
{
    let g2 = g.push(k);
    assert forall|x: int, y: int| 0 <= x < y < g2.len() implies #[trigger] g2[x] < #[trigger] g2[y] by {
        if y == i && x < i {
            if i > 0 {
                assert(g[x] <= g[i - 1]) by {
                    if x < i - 1 {
                        assert(g[x] < g[i - 1]);
                    }
                }
            }
        }
    }
    assert forall|q: int| 0 <= q < g2.len() implies 0 <= #[trigger] g2[q] < b.len() && b[g2[q]] == a.take(i + 1)[q] by {
        if q < i {
            assert(a.take(i)[q] == a.take(i + 1)[q]);
        }
    }
    assert forall|idx: Seq<int>| #[trigger] embeds_at(a.take(i + 1), b, idx) implies
        forall|m: int| 0 <= m < i + 1 ==> idx[m] >= g2[m] by {
        let pre = idx.take(i);
        assert forall|q: int| 0 <= q < pre.len() implies 0 <= #[trigger] pre[q] < b.len() && b[pre[q]] == a.take(i)[q] by {
            assert(a.take(i)[q] == a.take(i + 1)[q]);
        }
        assert(embeds_at(a.take(i), b, pre));
        assert forall|m: int| 0 <= m < i + 1 implies idx[m] >= g2[m] by {
            if m == i {
                if i > 0 {
                    assert(pre[i - 1] >= g[i - 1]);
                    assert(idx[i - 1] < idx[i]);
                }
                assert(b[idx[i]] == a.take(i + 1)[i]);
                assert(j <= idx[i]);
                if idx[i] < k {
                    assert(b[idx[i]] != a[i]);
                }
            } else {
                assert(pre[m] >= g[m]);
            }
        }
    }
}

/// A file that did not change only grew: every sequence is a subsequence of
/// itself.
pub proof fn lemma_subsequence_reflexive<T>(a: Seq<T>)
    ensures
        is_subsequence(a, a),
{
    let idx = Seq::new(a.len(), |i: int| i);
    assert(embeds_at(a, a, idx));
}

/// Insertions compose: if `a` survives in `b` and `b` survives in `c`, then
/// `a` survives in `c`.
pub proof fn lemma_subsequence_transitive<T>(a: Seq<T>, b: Seq<T>, c: Seq<T>)
    requires
        is_subsequence(a, b),
        is_subsequence(b, c),
    ensures
        is_subsequence(a, c),
{
    let f = choose|idx: Seq<int>| embeds_at(a, b, idx);
    let g = choose|idx: Seq<int>| embeds_at(b, c, idx);
    let h = Seq::new(a.len(), |i: int| g[f[i]]);
    assert forall|i: int, j: int| 0 <= i < j < h.len() implies #[trigger] h[i] < #[trigger] h[j] by {
        assert(f[i] < f[j]);
    }
    assert(embeds_at(a, c, h));
}

/// Inserting elements anywhere keeps every original element, in order.
pub proof fn lemma_insertion_keeps_subsequence<T>(a: Seq<T>, k: int, ins: Seq<T>)
    requires
        0 <= k <= a.len(),
    ensures
        is_subsequence(a, a.take(k) + ins + a.skip(k)),
{
    let b = a.take(k) + ins + a.skip(k);
    let idx = Seq::new(a.len(), |i: int| if i < k { i } else { i + ins.len() });
    assert forall|i: int| 0 <= i < idx.len() implies 0 <= #[trigger] idx[i] < b.len() && b[idx[i]] == a[i] by {
        if i >= k {
            assert(b[i + ins.len()] == a.skip(k)[i - k]);
        }
    }
    assert(embeds_at(a, b, idx));
}

/// An unchanged measure file is never a weakened one.
pub proof fn lemma_unchanged_file_only_appended(s: Seq<char>)
    ensures
        only_appended(s, s),
{
    lemma_subsequence_reflexive(lines_of(s));
}

/// Two rounds that each only appended to a measure file together only
/// appended to it.
pub proof fn lemma_only_appended_transitive(x: Seq<char>, y: Seq<char>, z: Seq<char>)
    requires
        only_appended(x, y),
        only_appended(y, z),
    ensures
        only_appended(x, z),
{
    lemma_subsequence_transitive(lines_of(x), lines_of(y), lines_of(z));
}

/// The name of a JSON value's kind.
pub open spec fn kind_name(v: JsonV) -> Seq<char> {
    match v {
        JsonV::Null => "null"@,
        JsonV::Bool(_) => "bool"@,
        JsonV::Number(_) => "number"@,
        JsonV::Str(_) => "string"@,
        JsonV::Array(_) => "array"@,
        JsonV::Object(_) => "object"@,
    }
}

/// How a value is shown in a finding: strings quoted, other scalars as
/// written, arrays and objects as their compact JSON text.
pub open spec fn shown(v: JsonV) -> Seq<char> {
    match v {
        JsonV::Null => "null"@,
        JsonV::Bool(b) => if b { "true"@ } else { "false"@ },
        JsonV::Number(t) => t,
        JsonV::Str(t) => "'"@ + t + "'"@,
        JsonV::Array(_) => json_compact_text(v),
        JsonV::Object(_) => json_compact_text(v),
    }
}

/// Structural append-only: keys and array elements may be added, never
/// removed, reordered, or altered.
pub open spec fn only_grew(old: JsonV, new: JsonV) -> bool
    decreases old,
{
    match old {
        JsonV::Object(o) => match new {
            JsonV::Object(n) => forall|i: int| 0 <= i < o.len() ==> match #[trigger] entry_value(n, o[i].0) {
                Some(nv) => only_grew(o[i].1, nv),
                None => false,
            },
            _ => false,
        },
        JsonV::Array(o) => match new {
            JsonV::Array(n) => o.len() <= n.len() && forall|i: int| 0 <= i < o.len() ==> only_grew(#[trigger] o[i], n[i]),
            _ => false,
        },
        _ => old == new,
    }
}

/// What a ledger comparison reports, in order: every place where `new` lost
/// or rewrote something `old` held.
pub open spec fn ledger_findings(old: JsonV, new: JsonV, path: Seq<char>) -> Seq<Seq<char>>
    decreases old, 1int, 0int,
{
    match old {
        JsonV::Object(o) => match new {
            JsonV::Object(n) => entry_findings(o, n, path, o.len() as int),
            _ => seq![path + ": object replaced by "@ + kind_name(new)],
        },
        JsonV::Array(o) => match new {
            JsonV::Array(n) => if n.len() < o.len() {
                seq![path + ": "@ + decimal((o.len() - n.len()) as nat) + " element(s) removed"@]
            } else {
                item_findings(o, n, path, o.len() as int)
            },
            _ => seq![path + ": array replaced by "@ + kind_name(new)],
        },
        _ => if old == new {
            Seq::empty()
        } else {
            seq![path + ": "@ + shown(old) + " -> "@ + shown(new)]
        },
    }
}

/// The findings for the first `i` entries of the old object `o`.
pub open spec fn entry_findings(
    o: Seq<(Seq<char>, JsonV)>,
    n: Seq<(Seq<char>, JsonV)>,
    path: Seq<char>,
    i: int,
) -> Seq<Seq<char>>
    decreases o, 0int, i,
{
    if i <= 0 || i > o.len() {
        Seq::empty()
    } else {
        let k = o[i - 1].0;
        let here = match entry_value(n, k) {
            Some(nv) => ledger_findings(o[i - 1].1, nv, path + "."@ + k),
            None => seq![path + "."@ + k + ": removed"@],
        };
        entry_findings(o, n, path, i - 1) + here
    }
}

/// The findings for the first `i` elements of the old array `o`.
pub open spec fn item_findings(o: Seq<JsonV>, n: Seq<JsonV>, path: Seq<char>, i: int) -> Seq<Seq<char>>
    decreases o, 0int, i,
{
    if i <= 0 || i > o.len() || i > n.len() {
        Seq::empty()
    } else {
        item_findings(o, n, path, i - 1) + ledger_findings(
            o[i - 1],
            n[i - 1],
            path + "["@ + decimal((i - 1) as nat) + "]"@,
        )
    }
}

/// The name of a value's kind.
pub fn kind(v: &Json) -> (r: &'static str)
    ensures
        r@ == kind_name(v@),
{
    proof {
        lemma_view_json(*v);
    }
    match v {
        Json::Null => "null",
        Json::Bool(_) => "bool",
        Json::Number(_) => "number",
        Json::Str(_) => "string",
        Json::Array(_) => "array",
        Json::Object(_) => "object",
    }
}

/// A value as a finding shows it.
fn show(v: &Json) -> (r: String)
    ensures
        r@ == shown(v@),
{
    proof {
        lemma_view_json(*v);
    }
    match v {
        Json::Null => "null".to_string(),
        Json::Bool(b) => if *b { "true".to_string() } else { "false".to_string() },
        Json::Number(t) => t.clone(),
        Json::Str(t) => {
            let mut m = "'".to_string();
            m.append(t.as_str());
            m.append("'");
            m
        },
        Json::Array(_) => compact_text(v),
        Json::Object(_) => compact_text(v),
    }
}

/// Whether two values that are not both arrays or objects are equal.
fn same_scalar(a: &Json, b: &Json) -> (r: bool)
    requires
        !(a@ is Array),
        !(a@ is Object),
    ensures
        r == (a@ == b@),
{
    proof {
        lemma_view_json(*a);
        lemma_view_json(*b);
    }
    match (a, b) {
        (Json::Null, Json::Null) => true,
        (Json::Bool(x), Json::Bool(y)) => *x == *y,
        (Json::Number(x), Json::Number(y)) => *x == *y,
        (Json::Str(x), Json::Str(y)) => *x == *y,
        _ => false,
    }
}

/// `a` followed by `b`.
fn cat(a: &String, b: &str) -> (r: String)
    ensures
        r@ == a@ + b@,
{
    let mut m = a.clone();
    m.append(b);
    m
}

/// Structural append-only for JSON evidence ledgers: records in `bad` every
/// place where `new` lost or rewrote what `old` held.
///
/// A line diff is the wrong tool here: adding a witness to an existing claim
/// edits the previous line's comma, which reads as tampering when it is the
/// opposite. Compare parsed values instead — keys and array elements may be
/// ADDED, never removed, reordered, or altered.
#[verifier::loop_isolation(false)]
pub fn json_only_grew(earlier: &Json, later: &Json, path: &String, bad: &mut Vec<String>)
    ensures
        texts(final(bad)@) == texts(old(bad)@) + ledger_findings(earlier@, later@, path@),
    decreases earlier,
{
    proof {
        lemma_view_json(*earlier);
        lemma_view_json(*later);
    }
    let ghost start = texts(bad@);
    match earlier {
        Json::Object(o) => match later {
            Json::Object(n) => {
                let ghost ov = view_entries(o@);
                let ghost nv = view_entries(n@);
                proof {
                    lemma_view_entries(o@);
                }
                let len = o.len();
                for i in 0..len
                    invariant
                        len == o@.len(),
                        texts(bad@) == start + entry_findings(ov, nv, path@, i as int),
                {
                    proof {
                        assert(decreases_to!(*earlier => (*earlier)->Object_0));
                        assert(decreases_to!((*earlier)->Object_0 => (*earlier)->Object_0@));
                        assert(decreases_to!((*earlier)->Object_0@ => (*earlier)->Object_0@[i as int]));
                        assert(decreases_to!((*earlier)->Object_0@[i as int] => (*earlier)->Object_0@[i as int].1));
                    }
                    let p = cat(&cat(path, "."), o[i].0.as_str());
                    match later.get(o[i].0.as_str()) {
                        Some(nv2) => {
                            json_only_grew(&o[i].1, nv2, &p, bad);
                        },
                        None => {
                            push_text(bad, cat(&p, ": removed"));
                        },
                    }
                    proof {
                        assert(start + entry_findings(ov, nv, path@, i + 1) =~= start
                            + entry_findings(ov, nv, path@, i as int) + (entry_findings(ov, nv, path@, i + 1).skip(
                            entry_findings(ov, nv, path@, i as int).len() as int)));
                    }
                }
            },
            _ => {
                push_text(bad, cat(&cat(path, ": object replaced by "), kind(later)));
            },
        },
        Json::Array(o) => match later {
            Json::Array(n) => {
                proof {
                    lemma_view_items(o@);
                    lemma_view_items(n@);
                }
                if n.len() < o.len() {
                    let count = string_of(&decimal_chars((o.len() - n.len()) as u64));
                    push_text(bad, cat(&cat(&cat(path, ": "), count.as_str()), " element(s) removed"));
                } else {
                    let ghost ov = view_items(o@);
                    let ghost nv = view_items(n@);
                    let len = o.len();
                    for i in 0..len
                        invariant
                            len == o@.len(),
                            len <= n@.len(),
                            texts(bad@) == start + item_findings(ov, nv, path@, i as int),
                    {
                        proof {
                            assert(decreases_to!(*earlier => (*earlier)->Array_0));
                            assert(decreases_to!((*earlier)->Array_0 => (*earlier)->Array_0@));
                            assert(decreases_to!((*earlier)->Array_0@ => (*earlier)->Array_0@[i as int]));
                        }
                        let idx = string_of(&decimal_chars(i as u64));
                        let p = cat(&cat(&cat(path, "["), idx.as_str()), "]");
                        json_only_grew(&o[i], &n[i], &p, bad);
                    }
                }
            },
            _ => {
                push_text(bad, cat(&cat(path, ": array replaced by "), kind(later)));
            },
        },
        _ => {
            if !same_scalar(earlier, later) {
                let m = cat(&cat(&cat(&cat(path, ": "), show(earlier).as_str()), " -> "), show(later).as_str());
                push_text(bad, m);
            }
        },
    }
}

/// A ledger comparison reports nothing exactly when the new ledger only grew.
pub proof fn lemma_no_findings_iff_only_grew(old: JsonV, new: JsonV, path: Seq<char>)
    ensures
        ledger_findings(old, new, path).len() == 0 <==> only_grew(old, new),
    decreases old, 1int, 0int,
{
    match old {
        JsonV::Object(o) => match new {
            JsonV::Object(n) => {
                lemma_entry_findings(o, n, path, o.len() as int);
            },
            _ => {},
        },
        JsonV::Array(o) => match new {
            JsonV::Array(n) => {
                if n.len() >= o.len() {
                    lemma_item_findings(o, n, path, o.len() as int);
                }
            },
            _ => {},
        },
        _ => {},
    }
}

proof fn lemma_entry_findings(o: Seq<(Seq<char>, JsonV)>, n: Seq<(Seq<char>, JsonV)>, path: Seq<char>, i: int)
    requires
        0 <= i <= o.len(),
    ensures
        entry_findings(o, n, path, i).len() == 0 <==> forall|j: int| 0 <= j < i ==> match #[trigger] entry_value(n, o[j].0) {
            Some(nv) => only_grew(o[j].1, nv),
            None => false,
        },
    decreases o, 0int, i,
{
    if i > 0 {
        lemma_entry_findings(o, n, path, i - 1);
        let k = o[i - 1].0;
        match entry_value(n, k) {
            Some(nv) => {
                lemma_no_findings_iff_only_grew(o[i - 1].1, nv, path + "."@ + k);
            },
            None => {},
        }
    }
}

proof fn lemma_item_findings(o: Seq<JsonV>, n: Seq<JsonV>, path: Seq<char>, i: int)
    requires
        0 <= i <= o.len(),
        o.len() <= n.len(),
    ensures
        item_findings(o, n, path, i).len() == 0 <==> forall|j: int| 0 <= j < i ==> only_grew(#[trigger] o[j], n[j]),
    decreases o, 0int, i,
{
    if i > 0 {
        lemma_item_findings(o, n, path, i - 1);
        lemma_no_findings_iff_only_grew(o[i - 1], n[i - 1], path + "["@ + decimal((i - 1) as nat) + "]"@);
    }
}

/// An untouched ledger only grew.
pub proof fn lemma_only_grew_reflexive(v: JsonV)
    requires
        well_formed(v),
    ensures
        only_grew(v, v),
    decreases v,
{
    match v {
        JsonV::Object(es) => {
            assert forall|i: int| 0 <= i < es.len() implies match #[trigger] entry_value(es, es[i].0) {
                Some(nv) => only_grew(es[i].1, nv),
                None => false,
            } by {
                lemma_entry_value_unique(es, i);
                lemma_only_grew_reflexive(es[i].1);
            }
        },
        JsonV::Array(items) => {
            assert forall|i: int| 0 <= i < items.len() implies only_grew(#[trigger] items[i], items[i]) by {
                lemma_only_grew_reflexive(items[i]);
            }
        },
        _ => {},
    }
}

/// Growth composes: a ledger that only grew in one round and only grew in the
/// next only grew across both.
pub proof fn lemma_only_grew_transitive(a: JsonV, b: JsonV, c: JsonV)
    requires
        only_grew(a, b),
        only_grew(b, c),
    ensures
        only_grew(a, c),
    decreases a,
{
    match a {
        JsonV::Object(ao) => {
            let bo = b->Object_0;
            let co = c->Object_0;
            assert forall|i: int| 0 <= i < ao.len() implies match #[trigger] entry_value(co, ao[i].0) {
                Some(nv) => only_grew(ao[i].1, nv),
                None => false,
            } by {
                let k = ao[i].0;
                assert(entry_value(bo, k) is Some);
                lemma_find_key_from(bo, k, 0);
                let j = find_key(bo, k)->0;
                assert(entry_value(co, bo[j].0) is Some);
                lemma_only_grew_transitive(ao[i].1, bo[j].1, entry_value(co, k)->0);
            }
        },
        JsonV::Array(ai) => {
            let bi = b->Array_0;
            let ci = c->Array_0;
            assert forall|i: int| 0 <= i < ai.len() implies only_grew(#[trigger] ai[i], ci[i]) by {
                assert(only_grew(ai[i], bi[i]));
                assert(only_grew(bi[i], ci[i]));
                lemma_only_grew_transitive(ai[i], bi[i], ci[i]);
            }
        },
        _ => {},
    }
}

/// A round may add a witness: appending elements to an array only grows it.
pub proof fn lemma_appending_elements_only_grows(items: Seq<JsonV>, extra: Seq<JsonV>)
    requires
        well_formed(JsonV::Array(items)),
    ensures
        only_grew(JsonV::Array(items), JsonV::Array(items + extra)),
{
    let w = JsonV::Array(items);
    lemma_well_formed_unfold(w);
    assert(w->Array_0 == items);
    assert forall|i: int| 0 <= i < items.len() implies only_grew(#[trigger] items[i], (items + extra)[i]) by {
        assert(well_formed(items[i]));
        assert((items + extra)[i] == items[i]);
        lemma_only_grew_reflexive(items[i]);
    }
}

/// A round may add a claim: a new key only grows an object.
pub proof fn lemma_adding_a_key_only_grows(es: Seq<(Seq<char>, JsonV)>, k: Seq<char>, v: JsonV)
    requires
        well_formed(JsonV::Object(es)),
        forall|i: int| 0 <= i < es.len() ==> es[i].0 != k,
    ensures
        only_grew(JsonV::Object(es), JsonV::Object(es.push((k, v)))),
{
    let es2 = es.push((k, v));
    lemma_well_formed_unfold(JsonV::Object(es));
    assert forall|i: int| 0 <= i < es.len() implies match #[trigger] entry_value(es2, es[i].0) {
        Some(nv) => only_grew(es[i].1, nv),
        None => false,
    } by {
        lemma_entry_value_unique(es, i);
        assert(unique_keys(es2));
        lemma_entry_value_unique(es2, i);
        lemma_only_grew_reflexive(es[i].1);
    }
}

/// A round may not drop a witness: an array that lost elements did not only
/// grow.
pub proof fn lemma_dropping_elements_does_not_only_grow(items: Seq<JsonV>, fewer: Seq<JsonV>)
    requires
        fewer.len() < items.len(),
    ensures
        !only_grew(JsonV::Array(items), JsonV::Array(fewer)),
{
}

/// A round may not repoint a witness: an array whose element at some place
/// was rewritten did not only grow.
pub proof fn lemma_rewriting_an_element_does_not_only_grow(items: Seq<JsonV>, later: Seq<JsonV>, i: int)
    requires
        0 <= i < items.len(),
        i < later.len(),
        !only_grew(items[i], later[i]),
    ensures
        !only_grew(JsonV::Array(items), JsonV::Array(later)),
{
}

/// A round may not soften a claim: a text that changed did not only grow.
pub proof fn lemma_rewriting_a_text_does_not_only_grow(a: Seq<char>, b: Seq<char>)
    requires
        a != b,
    ensures
        !only_grew(JsonV::Str(a), JsonV::Str(b)),
{
}

/// A round may not remove a claim: an object that lost a key did not only
/// grow.
pub proof fn lemma_removing_a_key_does_not_only_grow(o: Seq<(Seq<char>, JsonV)>, n: Seq<(Seq<char>, JsonV)>, i: int)
    requires
        0 <= i < o.len(),
        entry_value(n, o[i].0) is None,
    ensures
        !only_grew(JsonV::Object(o), JsonV::Object(n)),
{
    assert(!(match entry_value(n, o[i].0) {
        Some(nv) => only_grew(o[i].1, nv),
        None => false,
    }));
}

/// What a round's authority check found.
pub struct Verdict {
    pub violations: Vec<String>,
    pub proposals: Vec<String>,
    pub warnings: Vec<String>,
    pub changed_free: Vec<String>,
    pub appended_measures: Vec<String>,
}

/// A verdict as plain sequences: the text of every entry of each list.
pub ghost struct VerdictV {
    pub violations: Seq<Seq<char>>,
    pub proposals: Seq<Seq<char>>,
    pub warnings: Seq<Seq<char>>,
    pub changed_free: Seq<Seq<char>>,
    pub appended_measures: Seq<Seq<char>>,
}

impl View for Verdict {
    type V = VerdictV;

    open spec fn view(&self) -> VerdictV {
        VerdictV {
            violations: texts(self.violations@),
            proposals: texts(self.proposals@),
            warnings: texts(self.warnings@),
            changed_free: texts(self.changed_free@),
            appended_measures: texts(self.appended_measures@),
        }
    }
}

/// The verdict with nothing in it.
pub open spec fn empty_verdict() -> VerdictV {
    VerdictV {
        violations: Seq::empty(),
        proposals: Seq::empty(),
        warnings: Seq::empty(),
        changed_free: Seq::empty(),
        appended_measures: Seq::empty(),
    }
}

impl Verdict {
    pub fn new() -> (v: Verdict)
        ensures
            v@ == empty_verdict(),
    {
        Verdict {
            violations: Vec::new(),
            proposals: Vec::new(),
            warnings: Vec::new(),
            changed_free: Vec::new(),
            appended_measures: Vec::new(),
        }
    }

    /// A round passes when it crossed no boundary.
    pub fn ok(&self) -> (r: bool)
        ensures
            r == (self@.violations.len() == 0),
    {
        proof {
            lemma_texts(self.violations@);
        }
        self.violations.len() == 0
    }
}

/// The rules a round is judged by.
pub struct Authority {
    pub frozen: GlobSet,
    pub propose: GlobSet,
    pub measure: GlobSet,
    pub ledgers: GlobSet,
    pub append_only: bool,
}

/// The model of an authority: the pattern texts of each level.
pub ghost struct AuthorityV {
    pub frozen: Seq<Seq<char>>,
    pub propose: Seq<Seq<char>>,
    pub measure: Seq<Seq<char>>,
    pub ledgers: Seq<Seq<char>>,
    pub append_only: bool,
}

impl View for Authority {
    type V = AuthorityV;

    open spec fn view(&self) -> AuthorityV {
        AuthorityV {
            frozen: self.frozen@,
            propose: self.propose@,
            measure: self.measure@,
            ledgers: self.ledgers@,
            append_only: self.append_only,
        }
    }
}

/// One file as the guard sees it now: its path, its digest, and — for measure
/// files — its text in the snapshot and now.
pub struct Observed {
    pub rel: String,
    pub digest: String,
    pub old_text: String,
    pub new_text: String,
}

/// The model of an observed file.
pub ghost struct ObservedV {
    pub rel: Seq<char>,
    pub digest: Seq<char>,
    pub old_text: Seq<char>,
    pub new_text: Seq<char>,
}

impl View for Observed {
    type V = ObservedV;

    open spec fn view(&self) -> ObservedV {
        ObservedV { rel: self.rel@, digest: self.digest@, old_text: self.old_text@, new_text: self.new_text@ }
    }
}

pub open spec fn add_violation(v: VerdictV, m: Seq<char>) -> VerdictV {
    VerdictV { violations: v.violations.push(m), ..v }
}

pub open spec fn add_proposal(v: VerdictV, m: Seq<char>) -> VerdictV {
    VerdictV { proposals: v.proposals.push(m), ..v }
}

pub open spec fn add_warning(v: VerdictV, m: Seq<char>) -> VerdictV {
    VerdictV { warnings: v.warnings.push(m), ..v }
}

pub open spec fn add_free(v: VerdictV, m: Seq<char>) -> VerdictV {
    VerdictV { changed_free: v.changed_free.push(m), ..v }
}

pub open spec fn add_appended(v: VerdictV, m: Seq<char>) -> VerdictV {
    VerdictV { appended_measures: v.appended_measures.push(m), ..v }
}

/// The ledger violation for `rel`, naming at most four of its findings.
pub open spec fn ledger_violation(rel: Seq<char>, findings: Seq<Seq<char>>) -> Seq<char> {
    "LEDGER weakened: "@ + rel + " — "@ + joined(findings.take(if findings.len() > 4 { 4 } else { findings.len() as int }), "; "@)
        + (if findings.len() > 4 { "; ..."@ } else { ""@ })
        + ". Evidence ledgers may gain entries, never lose or rewrite them."@
}

/// What a changed measure file that existed at the snapshot adds to the
/// verdict.
pub open spec fn measure_change(a: AuthorityV, v: VerdictV, f: ObservedV) -> VerdictV {
    if first_match(a.ledgers, f.rel) is Some {
        match (json_text_value(f.old_text), json_text_value(f.new_text)) {
            (Some(o), Some(n)) => {
                let bad = ledger_findings(o, n, "$"@);
                if bad.len() == 0 {
                    add_appended(v, f.rel + " (ledger grew)"@)
                } else {
                    add_violation(v, ledger_violation(f.rel, bad))
                }
            },
            _ => add_violation(v, "LEDGER unparseable: "@ + f.rel),
        }
    } else if a.append_only {
        if only_appended(f.old_text, f.new_text) {
            add_appended(v, f.rel + " (appended)"@)
        } else {
            add_violation(v, "MEASURE weakened: "@ + f.rel
                + " — existing lines were changed or removed. Checks are append-only; a round may add a rung, never lower one."@)
        }
    } else {
        add_appended(v, f.rel + " (modified)"@)
    }
}

/// What one guarded file adds to the verdict, given the digest it had at the
/// snapshot (`was`).
pub open spec fn file_step(a: AuthorityV, v: VerdictV, f: ObservedV, was: Option<Seq<char>>) -> VerdictV {
    let changed = match was {
        Some(w) => w != f.digest,
        None => true,
    };
    match first_match(a.frozen, f.rel) {
        Some(i) => if changed {
            let how = if was is None { "added to"@ } else { "modified"@ };
            add_violation(v, "FROZEN "@ + how + ": "@ + f.rel + " (matches `"@ + a.frozen[i]
                + "`) — this file is part of the exam."@)
        } else {
            v
        },
        None => if first_match(a.measure, f.rel) is Some {
            if !changed {
                v
            } else if was is None {
                add_appended(v, f.rel + " (new check file)"@)
            } else {
                measure_change(a, v, f)
            }
        } else {
            match first_match(a.propose, f.rel) {
                Some(i) => if changed {
                    add_proposal(v, f.rel + " (matches `"@ + a.propose[i] + "`)"@)
                } else {
                    v
                },
                None => if changed {
                    add_free(v, f.rel)
                } else {
                    v
                },
            }
        },
    }
}

/// The digest the snapshot recorded for `rel`.
pub open spec fn recorded_digest(old_hashes: JsonV, rel: Seq<char>) -> Option<Seq<char>> {
    text_of(member(old_hashes, rel))
}

/// The verdict after the files `fs`, in order.
pub open spec fn files_step(a: AuthorityV, fs: Seq<ObservedV>, old_hashes: JsonV) -> VerdictV
    decreases fs.len(),
{
    if fs.len() == 0 {
        empty_verdict()
    } else {
        let f = fs.last();
        file_step(a, files_step(a, fs.drop_last(), old_hashes), f, recorded_digest(old_hashes, f.rel))
    }
}

/// Adds `m` to a verdict list.
fn push_onto(list: &mut Vec<String>, m: String)
    ensures
        texts(final(list)@) == texts(old(list)@).push(m@),
{
    push_text(list, m);
}

/// `a` followed by `b`, as a new string.
fn cat_str(a: &str, b: &str) -> (r: String)
    ensures
        r@ == a@ + b@,
{
    let mut m = a.to_string();
    m.append(b);
    m
}

/// The ledger violation message for `rel`.
fn ledger_violation_text(rel: &String, bad: &Vec<String>) -> (r: String)
    requires
        texts(bad@).len() > 0,
    ensures
        r@ == ledger_violation(rel@, texts(bad@)),
{
    proof {
        lemma_texts(bad@);
    }
    let n = bad.len();
    let shown_n = if n > 4 { 4 } else { n };
    let mut shown: Vec<String> = Vec::new();
    for i in 0..shown_n
        invariant
            shown_n <= n,
            n == bad@.len(),
            texts(bad@).len() == n,
            forall|k: int| 0 <= k < n ==> #[trigger] texts(bad@)[k] == bad@[k]@,
            texts(shown@) == texts(bad@).take(i as int),
    {
        let ghost before = shown@;
        shown.push(bad[i].clone());
        proof {
            lemma_texts_push_eq(before, bad@[i as int]);
            assert(texts(bad@).take(i + 1) =~= texts(bad@).take(i as int).push(bad@[i as int]@));
        }
    }
    let mut m = cat_str("LEDGER weakened: ", rel.as_str());
    m.append(" — ");
    m.append(join(&shown, "; ").as_str());
    if n > 4 {
        m.append("; ...");
    } else {
        m.append("");
    }
    m.append(". Evidence ledgers may gain entries, never lose or rewrite them.");
    m
}

proof fn lemma_texts_push_eq(v: Seq<String>, x: String)
    ensures
        texts(v.push(x)) == texts(v).push(x@),
{
    assert(v.push(x).drop_last() =~= v);
}

/// Adds to `v` what a changed measure file that existed at the snapshot
/// contributes.
fn judge_measure(a: &Authority, v: &mut Verdict, f: &Observed)
    ensures
        final(v)@ == measure_change(a@, old(v)@, f@),
{
    if a.ledgers.is_match(f.rel.as_str()) {
        match (parse_json(f.old_text.as_str()), parse_json(f.new_text.as_str())) {
            (Ok(o), Ok(n)) => {
                let mut bad: Vec<String> = Vec::new();
                json_only_grew(&o, &n, &"$".to_string(), &mut bad);
                proof {
                    assert(texts(Seq::<String>::empty()) =~= Seq::<Seq<char>>::empty());
                    lemma_texts(bad@);
                }
                if bad.len() == 0 {
                    push_onto(&mut v.appended_measures, cat_str(f.rel.as_str(), " (ledger grew)"));
                } else {
                    push_onto(&mut v.violations, ledger_violation_text(&f.rel, &bad));
                }
            },
            _ => {
                push_onto(&mut v.violations, cat_str("LEDGER unparseable: ", f.rel.as_str()));
            },
        }
    } else if a.append_only {
        if is_pure_append(f.old_text.as_str(), f.new_text.as_str()) {
            push_onto(&mut v.appended_measures, cat_str(f.rel.as_str(), " (appended)"));
        } else {
            let mut m = cat_str("MEASURE weakened: ", f.rel.as_str());
            m.append(" — existing lines were changed or removed. Checks are append-only; a round may add a rung, never lower one.");
            push_onto(&mut v.violations, m);
        }
    } else {
        push_onto(&mut v.appended_measures, cat_str(f.rel.as_str(), " (modified)"));
    }
}

/// Adds to `v` what one guarded file contributes, given the digest recorded
/// for it at the snapshot.
pub fn judge_file(a: &Authority, v: &mut Verdict, f: &Observed, was: Option<&str>)
    ensures
        final(v)@ == file_step(a@, old(v)@, f@, match was {
            Some(w) => Some(w@),
            None => None,
        }),
{
    let changed = match was {
        Some(w) => !same_str(w, f.digest.as_str()),
        None => true,
    };
    match a.frozen.match_of(f.rel.as_str()) {
        Some(pat) => {
            if changed {
                let how = if was.is_none() { "added to" } else { "modified" };
                let mut m = cat_str("FROZEN ", how);
                m.append(": ");
                m.append(f.rel.as_str());
                m.append(" (matches `");
                m.append(pat);
                m.append("`) — this file is part of the exam.");
                push_onto(&mut v.violations, m);
            }
        },
        None => {
            if a.measure.is_match(f.rel.as_str()) {
                if !changed {
                } else if was.is_none() {
                    push_onto(&mut v.appended_measures, cat_str(f.rel.as_str(), " (new check file)"));
                } else {
                    judge_measure(a, v, f);
                }
            } else {
                match a.propose.match_of(f.rel.as_str()) {
                    Some(pat) => {
                        if changed {
                            let mut m = cat_str(f.rel.as_str(), " (matches `");
                            m.append(pat);
                            m.append("`)");
                            push_onto(&mut v.proposals, m);
                        }
                    },
                    None => {
                        if changed {
                            push_onto(&mut v.changed_free, f.rel.clone());
                        }
                    },
                }
            }
        },
    }
}

/// Whether two strings are the same text.
pub fn same_str(a: &str, b: &str) -> (r: bool)
    ensures
        r == (a@ == b@),
{
    a.to_string() == b.to_string()
}

/// What a file recorded at the snapshot and gone from disk adds to the verdict.
pub open spec fn deletion_step(a: AuthorityV, v: VerdictV, rel: Seq<char>) -> VerdictV {
    if first_match(a.frozen, rel) is Some {
        add_violation(v, "FROZEN deleted: "@ + rel + " — the exam cannot shrink."@)
    } else if first_match(a.measure, rel) is Some {
        add_violation(v, "MEASURE deleted: "@ + rel + " — checks are append-only."@)
    } else if first_match(a.propose, rel) is Some {
        add_proposal(v, rel + " (deleted)"@)
    } else {
        add_free(v, rel + " (deleted)"@)
    }
}

/// The verdict after checking the recorded paths `keys` for deletion.
pub open spec fn deletions_step(a: AuthorityV, v: VerdictV, keys: Seq<Seq<char>>, present: Set<Seq<char>>) -> VerdictV
    decreases keys.len(),
{
    if keys.len() == 0 {
        v
    } else {
        let prev = deletions_step(a, v, keys.drop_last(), present);
        let k = keys.last();
        if present.contains(k) {
            prev
        } else {
            deletion_step(a, prev, k)
        }
    }
}

/// The paths the snapshot recorded digests for, in order.
pub open spec fn recorded_paths(old_hashes: JsonV) -> Seq<Seq<char>> {
    match old_hashes {
        JsonV::Object(es) => Seq::new(es.len(), |i: int| es[i].0),
        _ => Seq::empty(),
    }
}

/// The top-level areas that the free changes touch.
pub open spec fn areas(free: Seq<Seq<char>>) -> Set<Seq<char>> {
    Seq::new(free.len(), |i: int| before_char(free[i], '/')).to_set()
}

pub open spec fn attribution_warning(listed: Seq<Seq<char>>) -> Seq<char> {
    "attribution: this round touched "@ + decimal(listed.len()) + " top-level areas ("@ + joined(listed, ", "@)
        + "). If the round changes several independent levers, no one can tell which lesson to preserve."@
}

pub open spec fn no_rung_warning() -> Seq<char> {
    "no deterministic check was added. A closed gap without a new rung will be re-earned and re-lost."@
}

/// The verdict with its closing warnings: one when the free changes spread
/// over more than `limit` top-level areas, one when files changed and no
/// check was added.
pub open spec fn with_warnings(v: VerdictV, limit: nat) -> VerdictV {
    let listed = sorted_distinct(areas(v.changed_free));
    let v1 = if listed.len() > limit {
        add_warning(v, attribution_warning(listed))
    } else {
        v
    };
    if v1.changed_free.len() > 0 && v1.appended_measures.len() == 0 {
        add_warning(v1, no_rung_warning())
    } else {
        v1
    }
}

/// The models of a list of observed files.
pub open spec fn observed_views(fs: Seq<Observed>) -> Seq<ObservedV> {
    Seq::new(fs.len(), |i: int| fs[i]@)
}

/// The verdict on a round: the guarded files `fs` judged against the
/// snapshot's digests, then the recorded files no longer `present`, then the
/// closing warnings.
pub open spec fn judged(a: AuthorityV, fs: Seq<ObservedV>, old_hashes: JsonV, present: Set<Seq<char>>, limit: nat) -> VerdictV {
    with_warnings(deletions_step(a, files_step(a, fs, old_hashes), recorded_paths(old_hashes), present), limit)
}

/// Adds to `v` what a recorded file that is gone from disk contributes.
fn judge_deleted(a: &Authority, v: &mut Verdict, rel: &String)
    ensures
        final(v)@ == deletion_step(a@, old(v)@, rel@),
{
    if a.frozen.is_match(rel.as_str()) {
        let mut m = cat_str("FROZEN deleted: ", rel.as_str());
        m.append(" — the exam cannot shrink.");
        push_onto(&mut v.violations, m);
    } else if a.measure.is_match(rel.as_str()) {
        let mut m = cat_str("MEASURE deleted: ", rel.as_str());
        m.append(" — checks are append-only.");
        push_onto(&mut v.violations, m);
    } else if a.propose.is_match(rel.as_str()) {
        push_onto(&mut v.proposals, cat_str(rel.as_str(), " (deleted)"));
    } else {
        push_onto(&mut v.changed_free, cat_str(rel.as_str(), " (deleted)"));
    }
}

/// Whether `rel` is among `list`.
fn listed_in(list: &Vec<String>, rel: &String) -> (r: bool)
    ensures
        r == texts(list@).to_set().contains(rel@),
{
    proof {
        lemma_texts(list@);
    }
    let n = list.len();
    for i in 0..n
        invariant
            n == list@.len(),
            texts(list@).len() == n,
            forall|k: int| 0 <= k < n ==> #[trigger] texts(list@)[k] == list@[k]@,
            forall|k: int| 0 <= k < i ==> texts(list@)[k] != rel@,
    {
        if list[i] == *rel {
            assert(texts(list@)[i as int] == rel@);
            return true;
        }
    }
    false
}

/// Adds the closing warnings to `v`.
fn add_closing_warnings(v: &mut Verdict, limit: u64)
    ensures
        final(v)@ == with_warnings(old(v)@, limit as nat),
{
    let ghost free = texts(v.changed_free@);
    proof {
        lemma_texts(v.changed_free@);
    }
    let mut listed: Vec<Vec<char>> = Vec::new();
    let n = v.changed_free.len();
    proof {
        assert(views_of(listed@).to_set() =~= Seq::new(0, |i: int| before_char(free[i], '/')).to_set());
    }
    for i in 0..n
        invariant
            n == free.len(),
            n == v.changed_free@.len(),
            free == texts(v.changed_free@),
            forall|k: int| 0 <= k < n ==> #[trigger] free[k] == v.changed_free@[k]@,
            strictly_sorted(views_of(listed@)),
            views_of(listed@).to_set() == Seq::new(i as nat, |k: int| before_char(free[k], '/')).to_set(),
    {
        let area = prefix_before(v.changed_free[i].as_str(), '/');
        let ghost prev = Seq::new(i as nat, |k: int| before_char(free[k], '/'));
        insert_sorted(&mut listed, area);
        proof {
            let next = Seq::new((i + 1) as nat, |k: int| before_char(free[k], '/'));
            assert(next =~= prev.push(before_char(free[i as int], '/')));
            prev.lemma_push_to_set_commute(before_char(free[i as int], '/'));
        }
    }
    proof {
        let all = Seq::new(n as nat, |k: int| before_char(free[k], '/'));
        assert(all =~= Seq::new(free.len(), |k: int| before_char(free[k], '/')));
        let chosen = sorted_distinct(areas(free));
        assert(strictly_sorted(views_of(listed@)) && views_of(listed@).to_set() == areas(free));
        lemma_sorted_unique(chosen, views_of(listed@));
    }
    let count = listed.len();
    if count as u64 > limit {
        let mut names: Vec<String> = Vec::new();
        for i in 0..count
            invariant
                count == listed@.len(),
                texts(names@) == views_of(listed@).take(i as int),
        {
            let ghost before = names@;
            names.push(string_of(&listed[i]));
            proof {
                lemma_texts_push_eq(before, names@.last());
                assert(names@ == before.push(names@.last()));
                assert(views_of(listed@).take(i + 1) =~= views_of(listed@).take(i as int).push(listed@[i as int]@));
            }
        }
        proof {
            assert(views_of(listed@).take(count as int) =~= views_of(listed@));
        }
        let mut m = cat_str("attribution: this round touched ", string_of(&decimal_text(count as u64)).as_str());
        m.append(" top-level areas (");
        m.append(join(&names, ", ").as_str());
        m.append("). If the round changes several independent levers, no one can tell which lesson to preserve.");
        push_onto(&mut v.warnings, m);
    }
    proof {
        lemma_texts(v.changed_free@);
        lemma_texts(v.appended_measures@);
    }
    if v.changed_free.len() > 0 && v.appended_measures.len() == 0 {
        push_onto(
            &mut v.warnings,
            "no deterministic check was added. A closed gap without a new rung will be re-earned and re-lost.".to_string(),
        );
    }
}

/// Judges a round: every guarded file against the digest the snapshot
/// recorded for it, then every recorded file that is no longer on disk, then
/// the closing warnings.
///
/// `files` are the guarded files as they stand, `old_hashes` the snapshot's
/// digests by path, `on_disk` every file present now (guarded or not — a file
/// that merely stopped being guarded was not deleted), and `attribution_limit`
/// the number of top-level areas a round may touch before it is warned.
pub fn judge(a: &Authority, files: &Vec<Observed>, old_hashes: &Json, on_disk: &Vec<String>, attribution_limit: u64) -> (v: Verdict)
    ensures
        v@ == judged(a@, observed_views(files@), old_hashes@, texts(on_disk@).to_set(), attribution_limit as nat),
{
    let mut v = Verdict::new();
    let n = files.len();
    let ghost fs = observed_views(files@);
    for i in 0..n
        invariant
            n == files@.len(),
            fs == observed_views(files@),
            v@ == files_step(a@, fs.take(i as int), old_hashes@),
    {
        let f = &files[i];
        let was = match old_hashes.get(f.rel.as_str()) {
            Some(h) => h.as_str(),
            None => None,
        };
        judge_file(a, &mut v, f, was);
        proof {
            assert(fs.take(i + 1).drop_last() =~= fs.take(i as int));
            assert(fs.take(i + 1).last() == f@);
        }
    }
    proof {
        assert(fs.take(n as int) =~= fs);
        lemma_view_json(*old_hashes);
    }
    let ghost mid = v@;
    let ghost present = texts(on_disk@).to_set();
    if let Json::Object(es) = old_hashes {
        let ghost keys = recorded_paths(old_hashes@);
        proof {
            lemma_view_entries(es@);
        }
        let m = es.len();
        for i in 0..m
            invariant
                m == es@.len(),
                keys == recorded_paths(old_hashes@),
                present == texts(on_disk@).to_set(),
                keys.len() == m,
                forall|k: int| 0 <= k < m ==> #[trigger] keys[k] == es@[k].0@,
                v@ == deletions_step(a@, mid, keys.take(i as int), present),
        {
            proof {
                assert(keys.take(i + 1).drop_last() =~= keys.take(i as int));
                assert(keys.take(i + 1).last() == es@[i as int].0@);
                assert(keys[i as int] == es@[i as int].0@);
                lemma_texts(on_disk@);
            }
            if !listed_in(on_disk, &es[i].0) {
                judge_deleted(a, &mut v, &es[i].0);
            }
        }
        proof {
            assert(keys.take(m as int) =~= keys);
        }
    } else {
        proof {
            assert(recorded_paths(old_hashes@) =~= Seq::<Seq<char>>::empty());
        }
    }
    add_closing_warnings(&mut v, attribution_limit);
    v
}

/// The authority a configuration states: `authority.frozen`,
/// `authority.propose`, `measure.globs`, `measure.json_ledgers`, and
/// `measure.append_only` (true unless stated otherwise).
pub open spec fn authority_of(cfg: JsonV) -> AuthorityV {
    AuthorityV {
        frozen: globs_of(member2(cfg, "authority"@, "frozen"@)),
        propose: globs_of(member2(cfg, "authority"@, "propose"@)),
        measure: globs_of(member2(cfg, "measure"@, "globs"@)),
        ledgers: globs_of(member2(cfg, "measure"@, "json_ledgers"@)),
        append_only: match member2(cfg, "measure"@, "append_only"@) {
            Some(JsonV::Bool(b)) => b,
            _ => true,
        },
    }
}

/// The patterns a JSON value lists.
pub open spec fn globs_of(v: Option<JsonV>) -> Seq<Seq<char>> {
    match v {
        Some(JsonV::Array(items)) => string_items(items),
        _ => Seq::empty(),
    }
}

impl Authority {
    /// The authority stated by a configuration (or by the `config` part of a
    /// snapshot).
    pub fn from_config(cfg: &Json) -> (a: Authority)
        ensures
            a@ == authority_of(cfg@),
    {
        let append_only = match cfg.get2("measure", "append_only") {
            Some(b) => match b.as_bool() {
                Some(x) => x,
                None => true,
            },
            None => true,
        };
        Authority {
            frozen: GlobSet::from_json(cfg.get2("authority", "frozen")),
            propose: GlobSet::from_json(cfg.get2("authority", "propose")),
            measure: GlobSet::from_json(cfg.get2("measure", "globs")),
            ledgers: GlobSet::from_json(cfg.get2("measure", "json_ledgers")),
            append_only,
        }
    }
}

/// A list of texts as a JSON array of strings.
pub open spec fn text_array(v: Seq<Seq<char>>) -> JsonV {
    JsonV::Array(Seq::new(v.len(), |i: int| JsonV::Str(v[i])))
}

/// The verdict as JSON, for the round's evidence.
pub open spec fn verdict_json(v: VerdictV) -> JsonV {
    JsonV::Object(seq![
        ("ok"@, JsonV::Bool(v.violations.len() == 0)),
        ("violations"@, text_array(v.violations)),
        ("proposals"@, text_array(v.proposals)),
        ("warnings"@, text_array(v.warnings)),
        ("changed_free"@, text_array(v.changed_free)),
        ("appended_measures"@, text_array(v.appended_measures)),
    ])
}

impl Verdict {
    pub fn to_json(&self) -> (r: Json)
        ensures
            r@ == verdict_json(self@),
    {
        let ok = self.ok();
        let mut es: Vec<(String, Json)> = Vec::new();
        es.push(("ok".to_string(), Json::Bool(ok)));
        es.push(("violations".to_string(), texts_json(&self.violations)));
        es.push(("proposals".to_string(), texts_json(&self.proposals)));
        es.push(("warnings".to_string(), texts_json(&self.warnings)));
        es.push(("changed_free".to_string(), texts_json(&self.changed_free)));
        es.push(("appended_measures".to_string(), texts_json(&self.appended_measures)));
        let r = Json::Object(es);
        proof {
            lemma_view_json(r);
            lemma_view_entries(es@);
            assert(view_entries(es@) =~= verdict_json(self@)->Object_0);
        }
        r
    }
}

/// A list of strings as a JSON array.
pub fn texts_json(v: &Vec<String>) -> (r: Json)
    ensures
        r@ == text_array(texts(v@)),
{
    proof {
        lemma_texts(v@);
    }
    let r = Json::text_array(v);
    proof {
        assert(Seq::new(v@.len(), |i: int| JsonV::Str(v@[i]@)) =~= Seq::new(texts(v@).len(), |i: int| JsonV::Str(texts(v@)[i])));
    }
    r
}

/// Later steps never withdraw a violation.
proof fn lemma_file_step_keeps_violations(a: AuthorityV, v: VerdictV, f: ObservedV, was: Option<Seq<char>>)
    ensures
        file_step(a, v, f, was).violations.len() >= v.violations.len(),
{
}

proof fn lemma_files_step_violations_grow(a: AuthorityV, fs: Seq<ObservedV>, old_hashes: JsonV, k: int)
    requires
        0 <= k <= fs.len(),
    ensures
        files_step(a, fs, old_hashes).violations.len() >= files_step(a, fs.take(k), old_hashes).violations.len(),
    decreases fs.len(),
{
    if fs.len() > k {
        lemma_files_step_violations_grow(a, fs.drop_last(), old_hashes, k);
        assert(fs.drop_last().take(k) =~= fs.take(k));
        lemma_file_step_keeps_violations(a, files_step(a, fs.drop_last(), old_hashes), fs.last(), recorded_digest(old_hashes, fs.last().rel));
    } else {
        assert(fs.take(k) =~= fs);
    }
}

proof fn lemma_deletions_keep_violations(a: AuthorityV, v: VerdictV, keys: Seq<Seq<char>>, present: Set<Seq<char>>)
    ensures
        deletions_step(a, v, keys, present).violations.len() >= v.violations.len(),
    decreases keys.len(),
{
    if keys.len() > 0 {
        lemma_deletions_keep_violations(a, v, keys.drop_last(), present);
    }
}

proof fn lemma_deletions_violations_grow(a: AuthorityV, v: VerdictV, keys: Seq<Seq<char>>, present: Set<Seq<char>>, k: int)
    requires
        0 <= k <= keys.len(),
    ensures
        deletions_step(a, v, keys, present).violations.len() >= deletions_step(a, v, keys.take(k), present).violations.len(),
    decreases keys.len(),
{
    if keys.len() > k {
        lemma_deletions_violations_grow(a, v, keys.drop_last(), present, k);
        assert(keys.drop_last().take(k) =~= keys.take(k));
    } else {
        assert(keys.take(k) =~= keys);
    }
}

/// The exam cannot be edited: when a guarded file that a frozen pattern
/// matches differs from its snapshot digest (or has none), the round has a
/// violation.
pub proof fn lemma_changed_frozen_file_is_a_violation(
    a: AuthorityV,
    fs: Seq<ObservedV>,
    old_hashes: JsonV,
    present: Set<Seq<char>>,
    limit: nat,
    k: int,
)
    requires
        0 <= k < fs.len(),
        first_match(a.frozen, fs[k].rel) is Some,
        recorded_digest(old_hashes, fs[k].rel) != Some(fs[k].digest),
    ensures
        judged(a, fs, old_hashes, present, limit).violations.len() > 0,
{
    let pre = files_step(a, fs.take(k), old_hashes);
    assert(fs.take(k + 1).drop_last() =~= fs.take(k));
    assert(fs.take(k + 1).last() == fs[k]);
    assert(files_step(a, fs.take(k + 1), old_hashes).violations.len() > 0);
    lemma_files_step_violations_grow(a, fs, old_hashes, k + 1);
    let mid = files_step(a, fs, old_hashes);
    lemma_deletions_keep_violations(a, mid, recorded_paths(old_hashes), present);
}

/// The exam cannot shrink: when a file the snapshot recorded, and a frozen
/// pattern matches, is no longer on disk, the round has a violation.
pub proof fn lemma_deleted_frozen_file_is_a_violation(
    a: AuthorityV,
    fs: Seq<ObservedV>,
    old_hashes: JsonV,
    present: Set<Seq<char>>,
    limit: nat,
    k: int,
)
    requires
        0 <= k < recorded_paths(old_hashes).len(),
        first_match(a.frozen, recorded_paths(old_hashes)[k]) is Some,
        !present.contains(recorded_paths(old_hashes)[k]),
    ensures
        judged(a, fs, old_hashes, present, limit).violations.len() > 0,
{
    let keys = recorded_paths(old_hashes);
    let mid = files_step(a, fs, old_hashes);
    assert(keys.take(k + 1).drop_last() =~= keys.take(k));
    assert(keys.take(k + 1).last() == keys[k]);
    assert(deletions_step(a, mid, keys.take(k + 1), present).violations.len() > 0);
    lemma_deletions_violations_grow(a, mid, keys, present, k + 1);
}

/// A round that changed nothing crossed no boundary: when every guarded file
/// has the digest the snapshot recorded and every recorded file is still
/// present, the verdict is empty — no violation, proposal, warning, free
/// change or appended measure.
pub proof fn lemma_unchanged_round_is_clean(
    a: AuthorityV,
    fs: Seq<ObservedV>,
    old_hashes: JsonV,
    present: Set<Seq<char>>,
    limit: nat,
)
    requires
        forall|i: int| 0 <= i < fs.len() ==> recorded_digest(old_hashes, #[trigger] fs[i].rel) == Some(fs[i].digest),
        forall|i: int| 0 <= i < recorded_paths(old_hashes).len() ==> present.contains(#[trigger] recorded_paths(old_hashes)[i]),
    ensures
        judged(a, fs, old_hashes, present, limit) == empty_verdict(),
{
    lemma_unchanged_files(a, fs, old_hashes);
    lemma_all_present(a, files_step(a, fs, old_hashes), recorded_paths(old_hashes), present);
    let v = deletions_step(a, files_step(a, fs, old_hashes), recorded_paths(old_hashes), present);
    assert(v == empty_verdict());
    let listed = sorted_distinct(areas(v.changed_free));
    // `listed` lists the areas of no changes at all, so it is empty.
    let witness = Seq::<Seq<char>>::empty();
    assert(areas(v.changed_free) =~= Set::<Seq<char>>::empty());
    assert(witness.to_set() =~= Set::<Seq<char>>::empty());
    assert(strictly_sorted(witness));
    lemma_sorted_unique(listed, witness);
    assert(listed.len() == 0);
}

/// Checking files adds no warning.
proof fn lemma_files_add_no_warning(a: AuthorityV, fs: Seq<ObservedV>, old_hashes: JsonV)
    ensures
        files_step(a, fs, old_hashes).warnings == Seq::<Seq<char>>::empty(),
    decreases fs.len(),
{
    if fs.len() > 0 {
        lemma_files_add_no_warning(a, fs.drop_last(), old_hashes);
    }
}

/// Checking deletions adds no warning.
proof fn lemma_deletions_add_no_warning(a: AuthorityV, v: VerdictV, keys: Seq<Seq<char>>, present: Set<Seq<char>>)
    ensures
        deletions_step(a, v, keys, present).warnings == v.warnings,
    decreases keys.len(),
{
    if keys.len() > 0 {
        lemma_deletions_add_no_warning(a, v, keys.drop_last(), present);
    }
}

/// The warnings of a verdict are exactly these, in this order: the
/// attribution warning when the free changes spread over more than `limit`
/// distinct top-level areas, then the missing-rung warning when something
/// changed freely and no measure was appended. Nothing else warns.
pub proof fn lemma_judged_warnings(
    a: AuthorityV,
    fs: Seq<ObservedV>,
    old_hashes: JsonV,
    present: Set<Seq<char>>,
    limit: nat,
)
    ensures
        ({
            let v = judged(a, fs, old_hashes, present, limit);
            let listed = sorted_distinct(areas(v.changed_free));
            v.warnings == (if listed.len() > limit { seq![attribution_warning(listed)] } else { Seq::<Seq<char>>::empty() })
                + (if v.changed_free.len() > 0 && v.appended_measures.len() == 0 {
                seq![no_rung_warning()]
            } else {
                Seq::<Seq<char>>::empty()
            })
        }),
{
    let mid = files_step(a, fs, old_hashes);
    lemma_files_add_no_warning(a, fs, old_hashes);
    lemma_deletions_add_no_warning(a, mid, recorded_paths(old_hashes), present);
    let d = deletions_step(a, mid, recorded_paths(old_hashes), present);
    let v = judged(a, fs, old_hashes, present, limit);
    assert(v.changed_free == d.changed_free);
    assert(v.appended_measures == d.appended_measures);
    let listed = sorted_distinct(areas(d.changed_free));
    let first = if listed.len() > limit { seq![attribution_warning(listed)] } else { Seq::<Seq<char>>::empty() };
    let second = if d.changed_free.len() > 0 && d.appended_measures.len() == 0 {
        seq![no_rung_warning()]
    } else {
        Seq::<Seq<char>>::empty()
    };
    assert(v.warnings =~= first + second);
}

proof fn lemma_unchanged_files(a: AuthorityV, fs: Seq<ObservedV>, old_hashes: JsonV)
    requires
        forall|i: int| 0 <= i < fs.len() ==> recorded_digest(old_hashes, #[trigger] fs[i].rel) == Some(fs[i].digest),
    ensures
        files_step(a, fs, old_hashes) == empty_verdict(),
    decreases fs.len(),
{
    if fs.len() > 0 {
        let rest = fs.drop_last();
        assert forall|i: int| 0 <= i < rest.len() implies recorded_digest(old_hashes, #[trigger] rest[i].rel) == Some(rest[i].digest) by {
            assert(rest[i] == fs[i]);
        }
        lemma_unchanged_files(a, rest, old_hashes);
        assert(recorded_digest(old_hashes, fs[fs.len() - 1].rel) == Some(fs[fs.len() - 1].digest));
    }
}

proof fn lemma_all_present(a: AuthorityV, v: VerdictV, keys: Seq<Seq<char>>, present: Set<Seq<char>>)
    requires
        forall|i: int| 0 <= i < keys.len() ==> present.contains(#[trigger] keys[i]),
    ensures
        deletions_step(a, v, keys, present) == v,
    decreases keys.len(),
{
    if keys.len() > 0 {
        let rest = keys.drop_last();
        assert forall|i: int| 0 <= i < rest.len() implies present.contains(#[trigger] rest[i]) by {
            assert(rest[i] == keys[i]);
        }
        lemma_all_present(a, v, rest, present);
        assert(present.contains(keys[keys.len() - 1]));
    }
}

/// A violation that any one file's check raises survives to the verdict.
proof fn lemma_file_violation_survives(
    a: AuthorityV,
    fs: Seq<ObservedV>,
    old_hashes: JsonV,
    present: Set<Seq<char>>,
    limit: nat,
    k: int,
)
    requires
        0 <= k < fs.len(),
        file_step(a, files_step(a, fs.take(k), old_hashes), fs[k], recorded_digest(old_hashes, fs[k].rel)).violations.len()
            > files_step(a, fs.take(k), old_hashes).violations.len(),
    ensures
        judged(a, fs, old_hashes, present, limit).violations.len() > 0,
{
    assert(fs.take(k + 1).drop_last() =~= fs.take(k));
    assert(fs.take(k + 1).last() == fs[k]);
    lemma_files_step_violations_grow(a, fs, old_hashes, k + 1);
    let mid = files_step(a, fs, old_hashes);
    lemma_deletions_keep_violations(a, mid, recorded_paths(old_hashes), present);
}

/// Checks are append-only: a changed measure file (not frozen, not a ledger)
/// whose recorded lines did not all survive, in order, is a violation while
/// measures are append-only.
pub proof fn lemma_weakened_measure_is_a_violation(
    a: AuthorityV,
    fs: Seq<ObservedV>,
    old_hashes: JsonV,
    present: Set<Seq<char>>,
    limit: nat,
    k: int,
)
    requires
        0 <= k < fs.len(),
        first_match(a.frozen, fs[k].rel) is None,
        first_match(a.measure, fs[k].rel) is Some,
        first_match(a.ledgers, fs[k].rel) is None,
        a.append_only,
        recorded_digest(old_hashes, fs[k].rel) is Some,
        recorded_digest(old_hashes, fs[k].rel) != Some(fs[k].digest),
        !only_appended(fs[k].old_text, fs[k].new_text),
    ensures
        judged(a, fs, old_hashes, present, limit).violations.len() > 0,
{
    lemma_file_violation_survives(a, fs, old_hashes, present, limit, k);
}

/// Evidence ledgers may gain entries, never lose or rewrite them: a changed
/// ledger whose old and new texts both parse, and whose new value did not
/// only grow from the old, is a violation.
pub proof fn lemma_weakened_ledger_is_a_violation(
    a: AuthorityV,
    fs: Seq<ObservedV>,
    old_hashes: JsonV,
    present: Set<Seq<char>>,
    limit: nat,
    k: int,
)
    requires
        0 <= k < fs.len(),
        first_match(a.frozen, fs[k].rel) is None,
        first_match(a.measure, fs[k].rel) is Some,
        first_match(a.ledgers, fs[k].rel) is Some,
        recorded_digest(old_hashes, fs[k].rel) is Some,
        recorded_digest(old_hashes, fs[k].rel) != Some(fs[k].digest),
        json_text_value(fs[k].old_text) is Some,
        json_text_value(fs[k].new_text) is Some,
        !only_grew(json_text_value(fs[k].old_text)->0, json_text_value(fs[k].new_text)->0),
    ensures
        judged(a, fs, old_hashes, present, limit).violations.len() > 0,
{
    lemma_no_findings_iff_only_grew(json_text_value(fs[k].old_text)->0, json_text_value(fs[k].new_text)->0, "$"@);
    lemma_file_violation_survives(a, fs, old_hashes, present, limit, k);
}

/// A check the round adds is a rung, not a free change: a guarded file that no
/// frozen pattern matches, that a measure pattern matches, and that the
/// snapshot has no digest for is recorded among the appended measures as
/// `<rel> (new check file)`, and nothing else of the verdict changes.
pub proof fn lemma_new_check_file_is_a_rung(a: AuthorityV, v: VerdictV, f: ObservedV)
    requires
        first_match(a.frozen, f.rel) is None,
        first_match(a.measure, f.rel) is Some,
    ensures
        file_step(a, v, f, None).appended_measures == v.appended_measures.push(f.rel + " (new check file)"@),
        file_step(a, v, f, None).changed_free == v.changed_free,
        file_step(a, v, f, None).violations == v.violations,
        file_step(a, v, f, None).proposals == v.proposals,
        file_step(a, v, f, None).warnings == v.warnings,
{
}

/// A deleted proposal-level file is for a person to decide: a recorded file
/// gone from disk that no frozen or measure pattern matches and a propose
/// pattern matches adds `<rel> (deleted)` to the proposals, and nothing else
/// of the verdict changes.
pub proof fn lemma_deleted_proposal_file_is_a_proposal(a: AuthorityV, v: VerdictV, rel: Seq<char>)
    requires
        first_match(a.frozen, rel) is None,
        first_match(a.measure, rel) is None,
        first_match(a.propose, rel) is Some,
    ensures
        deletion_step(a, v, rel).proposals == v.proposals.push(rel + " (deleted)"@),
        deletion_step(a, v, rel).changed_free == v.changed_free,
        deletion_step(a, v, rel).violations == v.violations,
        deletion_step(a, v, rel).appended_measures == v.appended_measures,
        deletion_step(a, v, rel).warnings == v.warnings,
{
}

/// Judging a file keeps every appended measure already recorded, in place.
proof fn lemma_file_step_keeps_appended(a: AuthorityV, v: VerdictV, f: ObservedV, was: Option<Seq<char>>)
    ensures
        file_step(a, v, f, was).appended_measures.len() >= v.appended_measures.len(),
        file_step(a, v, f, was).appended_measures.take(v.appended_measures.len() as int) == v.appended_measures,
{
    let r = file_step(a, v, f, was).appended_measures;
    if r.len() > v.appended_measures.len() {
        assert(r.take(v.appended_measures.len() as int) =~= v.appended_measures);
    } else {
        assert(r.take(v.appended_measures.len() as int) =~= v.appended_measures);
    }
}

/// Judging more files keeps the appended measures judged before, in place.
proof fn lemma_files_step_keeps_appended(a: AuthorityV, fs: Seq<ObservedV>, old_hashes: JsonV, k: int)
    requires
        0 <= k <= fs.len(),
    ensures
        files_step(a, fs, old_hashes).appended_measures.len() >= files_step(a, fs.take(k), old_hashes).appended_measures.len(),
        files_step(a, fs, old_hashes).appended_measures.take(files_step(a, fs.take(k), old_hashes).appended_measures.len() as int)
            == files_step(a, fs.take(k), old_hashes).appended_measures,
    decreases fs.len(),
{
    if fs.len() > k {
        lemma_files_step_keeps_appended(a, fs.drop_last(), old_hashes, k);
        assert(fs.drop_last().take(k) =~= fs.take(k));
        let mid = files_step(a, fs.drop_last(), old_hashes);
        lemma_file_step_keeps_appended(a, mid, fs.last(), recorded_digest(old_hashes, fs.last().rel));
        let early = files_step(a, fs.take(k), old_hashes).appended_measures;
        let fin = files_step(a, fs, old_hashes).appended_measures;
        assert(fin.take(early.len() as int) =~= mid.appended_measures.take(early.len() as int));
    } else {
        assert(fs.take(k) =~= fs);
        let fin = files_step(a, fs, old_hashes).appended_measures;
        assert(fin.take(fin.len() as int) =~= fin);
    }
}

/// Checking deletions leaves the appended measures as they were.
proof fn lemma_deletions_keep_appended(a: AuthorityV, v: VerdictV, keys: Seq<Seq<char>>, present: Set<Seq<char>>)
    ensures
        deletions_step(a, v, keys, present).appended_measures == v.appended_measures,
    decreases keys.len(),
{
    if keys.len() > 0 {
        lemma_deletions_keep_appended(a, v, keys.drop_last(), present);
    }
}

/// Checking more deletions keeps the proposals found before, in place.
proof fn lemma_deletions_keep_proposals(a: AuthorityV, v: VerdictV, keys: Seq<Seq<char>>, present: Set<Seq<char>>, k: int)
    requires
        0 <= k <= keys.len(),
    ensures
        deletions_step(a, v, keys, present).proposals.len() >= deletions_step(a, v, keys.take(k), present).proposals.len(),
        deletions_step(a, v, keys, present).proposals.take(deletions_step(a, v, keys.take(k), present).proposals.len() as int)
            == deletions_step(a, v, keys.take(k), present).proposals,
    decreases keys.len(),
{
    let early = deletions_step(a, v, keys.take(k), present).proposals;
    let fin = deletions_step(a, v, keys, present).proposals;
    if keys.len() > k {
        lemma_deletions_keep_proposals(a, v, keys.drop_last(), present, k);
        assert(keys.drop_last().take(k) =~= keys.take(k));
        let mid = deletions_step(a, v, keys.drop_last(), present).proposals;
        assert(fin.take(early.len() as int) =~= mid.take(early.len() as int));
    } else {
        assert(keys.take(k) =~= keys);
        assert(fin.take(fin.len() as int) =~= fin);
    }
}

/// A round that adds a check is not warned for adding none: when a guarded
/// file that no frozen pattern matches and a measure pattern matches has no
/// digest in the snapshot, the verdict records it as `<rel> (new check file)`
/// among the appended measures and gives no missing-rung warning.
pub proof fn lemma_added_check_is_recorded_and_not_warned(
    a: AuthorityV,
    fs: Seq<ObservedV>,
    old_hashes: JsonV,
    present: Set<Seq<char>>,
    limit: nat,
    k: int,
)
    requires
        0 <= k < fs.len(),
        first_match(a.frozen, fs[k].rel) is None,
        first_match(a.measure, fs[k].rel) is Some,
        recorded_digest(old_hashes, fs[k].rel) is None,
    ensures
        judged(a, fs, old_hashes, present, limit).appended_measures.contains(fs[k].rel + " (new check file)"@),
        !judged(a, fs, old_hashes, present, limit).warnings.contains(no_rung_warning()),
{
    let x = fs[k].rel + " (new check file)"@;
    let before = files_step(a, fs.take(k), old_hashes);
    assert(fs.take(k + 1).drop_last() =~= fs.take(k));
    assert(fs.take(k + 1).last() == fs[k]);
    lemma_new_check_file_is_a_rung(a, before, fs[k]);
    let after = files_step(a, fs.take(k + 1), old_hashes);
    assert(after.appended_measures == before.appended_measures.push(x));
    lemma_files_step_keeps_appended(a, fs, old_hashes, k + 1);
    let mid = files_step(a, fs, old_hashes);
    let n = after.appended_measures.len() as int;
    assert(mid.appended_measures.take(n)[n - 1] == x);
    assert(mid.appended_measures[n - 1] == x);
    lemma_deletions_keep_appended(a, mid, recorded_paths(old_hashes), present);
    let v = judged(a, fs, old_hashes, present, limit);
    assert(v.appended_measures[n - 1] == x);
    assert(v.appended_measures.contains(x));
    lemma_judged_warnings(a, fs, old_hashes, present, limit);
    let listed = sorted_distinct(areas(v.changed_free));
    reveal_strlit("attribution: this round touched ");
    reveal_strlit("no deterministic check was added. A closed gap without a new rung will be re-earned and re-lost.");
    if v.warnings.contains(no_rung_warning()) {
        let j = choose|j: int| 0 <= j < v.warnings.len() && v.warnings[j] == no_rung_warning();
        assert(v.warnings[j] == attribution_warning(listed));
        assert(attribution_warning(listed)[0] == 'a');
        assert(no_rung_warning()[0] == 'n');
    }
}

/// A deleted proposal-level file reaches a person: when a recorded file that
/// no frozen or measure pattern matches and a propose pattern matches is gone
/// from disk, the verdict's proposals hold `<rel> (deleted)`.
pub proof fn lemma_deleted_proposal_file_reaches_a_person(
    a: AuthorityV,
    fs: Seq<ObservedV>,
    old_hashes: JsonV,
    present: Set<Seq<char>>,
    limit: nat,
    k: int,
)
    requires
        0 <= k < recorded_paths(old_hashes).len(),
        !present.contains(recorded_paths(old_hashes)[k]),
        first_match(a.frozen, recorded_paths(old_hashes)[k]) is None,
        first_match(a.measure, recorded_paths(old_hashes)[k]) is None,
        first_match(a.propose, recorded_paths(old_hashes)[k]) is Some,
    ensures
        judged(a, fs, old_hashes, present, limit).proposals.contains(recorded_paths(old_hashes)[k] + " (deleted)"@),
{
    let keys = recorded_paths(old_hashes);
    let rel = keys[k];
    let x = rel + " (deleted)"@;
    let mid = files_step(a, fs, old_hashes);
    assert(keys.take(k + 1).drop_last() =~= keys.take(k));
    assert(keys.take(k + 1).last() == rel);
    let before = deletions_step(a, mid, keys.take(k), present);
    lemma_deleted_proposal_file_is_a_proposal(a, before, rel);
    let after = deletions_step(a, mid, keys.take(k + 1), present);
    assert(after.proposals == before.proposals.push(x));
    lemma_deletions_keep_proposals(a, mid, keys, present, k + 1);
    let d = deletions_step(a, mid, keys, present);
    let n = after.proposals.len() as int;
    assert(d.proposals.take(n)[n - 1] == x);
    let v = judged(a, fs, old_hashes, present, limit);
    assert(v.proposals == d.proposals);
    assert(v.proposals[n - 1] == x);
}

/// A guarded file whose digest is the one the snapshot recorded changes
/// nothing in the verdict, whatever patterns match it.
pub proof fn lemma_unchanged_file_adds_nothing(a: AuthorityV, v: VerdictV, f: ObservedV)
    ensures
        file_step(a, v, f, Some(f.digest)) == v,
{
}

/// A changed or added file that a frozen pattern matches is a violation
/// naming the file and the first frozen pattern it matches; nothing else of
/// the verdict changes.
pub proof fn lemma_changed_frozen_file_step(a: AuthorityV, v: VerdictV, f: ObservedV, was: Option<Seq<char>>, i: int)
    requires
        first_match(a.frozen, f.rel) == Some(i),
        was != Some(f.digest),
    ensures
        file_step(a, v, f, was) == (VerdictV {
            violations: v.violations.push(
                "FROZEN "@ + (if was is None { "added to"@ } else { "modified"@ }) + ": "@ + f.rel + " (matches `"@
                    + a.frozen[i] + "`) — this file is part of the exam."@,
            ),
            ..v
        }),
{
}

/// A changed or added file that only a propose pattern matches is a proposal
/// naming the file and the first propose pattern it matches; nothing else of
/// the verdict changes.
pub proof fn lemma_changed_proposal_file_step(a: AuthorityV, v: VerdictV, f: ObservedV, was: Option<Seq<char>>, i: int)
    requires
        first_match(a.frozen, f.rel) is None,
        first_match(a.measure, f.rel) is None,
        first_match(a.propose, f.rel) == Some(i),
        was != Some(f.digest),
    ensures
        file_step(a, v, f, was) == (VerdictV { proposals: v.proposals.push(f.rel + " (matches `"@ + a.propose[i] + "`)"@), ..v }),
{
}

/// A changed or added file that no frozen, measure or propose pattern matches
/// is a free change, listed by its path; nothing else of the verdict changes.
pub proof fn lemma_changed_free_file_step(a: AuthorityV, v: VerdictV, f: ObservedV, was: Option<Seq<char>>)
    requires
        first_match(a.frozen, f.rel) is None,
        first_match(a.measure, f.rel) is None,
        first_match(a.propose, f.rel) is None,
        was != Some(f.digest),
    ensures
        file_step(a, v, f, was) == (VerdictV { changed_free: v.changed_free.push(f.rel), ..v }),
{
}

/// A changed measure file that existed at the snapshot, when measures are
/// append-only and it is no ledger: kept lines in order make it a rung,
/// `<rel> (appended)`; otherwise it is a weakened measure. When measures are
/// not append-only it is a rung, `<rel> (modified)`. Nothing else changes.
pub proof fn lemma_changed_measure_file_step(a: AuthorityV, v: VerdictV, f: ObservedV, w: Seq<char>)
    requires
        first_match(a.frozen, f.rel) is None,
        first_match(a.measure, f.rel) is Some,
        first_match(a.ledgers, f.rel) is None,
        w != f.digest,
    ensures
        a.append_only && only_appended(f.old_text, f.new_text) ==> file_step(a, v, f, Some(w)) == (VerdictV {
            appended_measures: v.appended_measures.push(f.rel + " (appended)"@),
            ..v
        }),
        a.append_only && !only_appended(f.old_text, f.new_text) ==> file_step(a, v, f, Some(w)) == (VerdictV {
            violations: v.violations.push(
                "MEASURE weakened: "@ + f.rel
                    + " — existing lines were changed or removed. Checks are append-only; a round may add a rung, never lower one."@,
            ),
            ..v
        }),
        !a.append_only ==> file_step(a, v, f, Some(w)) == (VerdictV {
            appended_measures: v.appended_measures.push(f.rel + " (modified)"@),
            ..v
        }),
{
}

/// A deleted file is judged by the first rule that matches it: frozen and
/// measure files are violations, proposal-level files proposals, and any
/// other a free change `<rel> (deleted)`; nothing else of the verdict changes.
pub proof fn lemma_deletion_step_by_authority(a: AuthorityV, v: VerdictV, rel: Seq<char>)
    ensures
        first_match(a.frozen, rel) is Some ==> deletion_step(a, v, rel) == (VerdictV {
            violations: v.violations.push("FROZEN deleted: "@ + rel + " — the exam cannot shrink."@),
            ..v
        }),
        first_match(a.frozen, rel) is None && first_match(a.measure, rel) is Some ==> deletion_step(a, v, rel) == (VerdictV {
            violations: v.violations.push("MEASURE deleted: "@ + rel + " — checks are append-only."@),
            ..v
        }),
        first_match(a.frozen, rel) is None && first_match(a.measure, rel) is None && first_match(a.propose, rel) is Some
            ==> deletion_step(a, v, rel) == (VerdictV { proposals: v.proposals.push(rel + " (deleted)"@), ..v }),
        first_match(a.frozen, rel) is None && first_match(a.measure, rel) is None && first_match(a.propose, rel) is None
            ==> deletion_step(a, v, rel) == (VerdictV { changed_free: v.changed_free.push(rel + " (deleted)"@), ..v }),
{
}

/// Only recorded files gone from disk are judged as deletions: a recorded
/// path still present adds nothing.
pub proof fn lemma_present_files_are_not_deleted(a: AuthorityV, v: VerdictV, keys: Seq<Seq<char>>, present: Set<Seq<char>>, k: Seq<char>)
    requires
        present.contains(k),
    ensures
        deletions_step(a, v, keys.push(k), present) == deletions_step(a, v, keys, present),
{
    assert(keys.push(k).drop_last() =~= keys);
}

/// A changed ledger that existed at the snapshot: when both texts are JSON
/// and the new one only grew the old, it is a rung, `<rel> (ledger grew)`;
/// when either is not JSON it is a violation. Nothing else changes.
pub proof fn lemma_changed_ledger_step(a: AuthorityV, v: VerdictV, f: ObservedV, w: Seq<char>)
    requires
        first_match(a.frozen, f.rel) is None,
        first_match(a.measure, f.rel) is Some,
        first_match(a.ledgers, f.rel) is Some,
        w != f.digest,
    ensures
        (json_text_value(f.old_text) matches Some(o) && json_text_value(f.new_text) matches Some(n) && only_grew(o, n))
            ==> file_step(a, v, f, Some(w)) == (VerdictV {
            appended_measures: v.appended_measures.push(f.rel + " (ledger grew)"@),
            ..v
        }),
        (json_text_value(f.old_text) is None || json_text_value(f.new_text) is None) ==> file_step(a, v, f, Some(w)) == (VerdictV {
            violations: v.violations.push("LEDGER unparseable: "@ + f.rel),
            ..v
        }),
{
    if json_text_value(f.old_text) is Some && json_text_value(f.new_text) is Some {
        lemma_no_findings_iff_only_grew(json_text_value(f.old_text)->0, json_text_value(f.new_text)->0, "$"@);
    }
}

} // verus!
