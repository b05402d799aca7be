//! JSON documents as plain values: the configuration, the round state, the
//! snapshot and the evidence ledgers all travel in this shape.

use vstd::prelude::*;
use crate::text::{chars_of, decimal, decimal_chars, decimal_value, is_decimal, parse_u64, string_of};

verus! {

/// A JSON value. Numbers keep their JSON text; objects keep their entries in
/// order.
pub enum Json {
    Null,
    Bool(bool),
    Number(String),
    Str(String),
    Array(Vec<Json>),
    Object(Vec<(String, Json)>),
}

/// The mathematical model of a JSON value.
pub ghost enum JsonV {
    Null,
    Bool(bool),
    Number(Seq<char>),
    Str(Seq<char>),
    Array(Seq<JsonV>),
    Object(Seq<(Seq<char>, JsonV)>),
}

pub open spec fn view_json(j: Json) -> JsonV
    decreases j,
{
    match j {
        Json::Null => JsonV::Null,
        Json::Bool(b) => JsonV::Bool(b),
        Json::Number(n) => JsonV::Number(n@),
        Json::Str(s) => JsonV::Str(s@),
        Json::Array(v) => JsonV::Array(view_items(v@)),
        Json::Object(v) => JsonV::Object(view_entries(v@)),
    }
}

pub open spec fn view_items(s: Seq<Json>) -> Seq<JsonV>
    decreases s,
{
    if s.len() == 0 {
        Seq::empty()
    } else {
        view_items(s.drop_last()).push(view_json(s.last()))
    }
}

pub open spec fn view_entries(s: Seq<(String, Json)>) -> Seq<(Seq<char>, JsonV)>
    decreases s,
{
    if s.len() == 0 {
        Seq::empty()
    } else {
        view_entries(s.drop_last()).push((s.last().0@, view_json(s.last().1)))
    }
}

impl View for Json {
    type V = JsonV;

    open spec fn view(&self) -> JsonV {
        view_json(*self)
    }
}

pub proof fn lemma_view_json(j: Json)
    ensures
        view_json(j) == match j {
            Json::Null => JsonV::Null,
            Json::Bool(b) => JsonV::Bool(b),
            Json::Number(n) => JsonV::Number(n@),
            Json::Str(s) => JsonV::Str(s@),
            Json::Array(v) => JsonV::Array(view_items(v@)),
            Json::Object(v) => JsonV::Object(view_entries(v@)),
        },
{
}

pub proof fn lemma_view_items(s: Seq<Json>)
    ensures
        view_items(s).len() == s.len(),
        forall|i: int| 0 <= i < s.len() ==> #[trigger] view_items(s)[i] == view_json(s[i]),
    decreases s.len(),
{
    if s.len() > 0 {
        lemma_view_items(s.drop_last());
    }
}

pub proof fn lemma_view_entries(s: Seq<(String, Json)>)
    ensures
        view_entries(s).len() == s.len(),
        forall|i: int| 0 <= i < s.len() ==> #[trigger] view_entries(s)[i] == (s[i].0@, view_json(s[i].1)),
    decreases s.len(),
{
    if s.len() > 0 {
        lemma_view_entries(s.drop_last());
    }
}

/// The index of the first entry of `es` at or after `i` whose key is `k`.
pub open spec fn find_key_from(es: Seq<(Seq<char>, JsonV)>, k: Seq<char>, i: int) -> Option<int>
    decreases es.len() - i,
{
    if i < 0 || i >= es.len() {
        None
    } else if es[i].0 == k {
        Some(i)
    } else {
        find_key_from(es, k, i + 1)
    }
}

/// The index of the first entry of `es` whose key is `k`.
pub open spec fn find_key(es: Seq<(Seq<char>, JsonV)>, k: Seq<char>) -> Option<int> {
    find_key_from(es, k, 0)
}

pub proof fn lemma_find_key_from(es: Seq<(Seq<char>, JsonV)>, k: Seq<char>, i: int)
    requires
        0 <= i <= es.len(),
    ensures
        find_key_from(es, k, i) matches Some(j) ==> i <= j < es.len() && es[j].0 == k
            && forall|m: int| i <= m < j ==> es[m].0 != k,
        find_key_from(es, k, i) is None ==> forall|m: int| i <= m < es.len() ==> es[m].0 != k,
    decreases es.len() - i,
{
    if i < es.len() {
        lemma_find_key_from(es, k, i + 1);
    }
}

pub proof fn lemma_find_key_step(es: Seq<(Seq<char>, JsonV)>, k: Seq<char>, i: int)
    requires
        0 <= i < es.len(),
    ensures
        find_key_from(es, k, i) == if es[i].0 == k {
            Some(i)
        } else {
            find_key_from(es, k, i + 1)
        },
{
}

/// The member `k` of an object; nothing for other values or absent keys.
pub open spec fn member(j: JsonV, k: Seq<char>) -> Option<JsonV> {
    match j {
        JsonV::Object(es) => match find_key(es, k) {
            Some(i) => Some(es[i].1),
            None => None,
        },
        _ => None,
    }
}

/// The value reached by following the keys of `path` from `j`.
pub open spec fn at_path(j: JsonV, path: Seq<Seq<char>>) -> Option<JsonV>
    decreases path.len(),
{
    if path.len() == 0 {
        Some(j)
    } else {
        match member(j, path[0]) {
            Some(c) => at_path(c, path.drop_first()),
            None => None,
        }
    }
}

/// The text of a JSON string; nothing for other values.
pub open spec fn text_of(j: Option<JsonV>) -> Option<Seq<char>> {
    match j {
        Some(JsonV::Str(s)) => Some(s),
        _ => None,
    }
}

/// Whether `a` and `b` are the same text.
pub fn same_text(a: &String, b: &str) -> (r: bool)
    ensures
        r == (a@ == b@),
{
    let bs = b.to_string();
    *a == bs
}

impl Json {
    /// The member `key` of an object.
    pub fn get(&self, key: &str) -> (r: Option<&Json>)
        ensures
            match member(self@, key@) {
                Some(v) => r is Some && r->0@ == v,
                None => r is None,
            },
    {
        match self {
            Json::Object(es) => {
                proof {
                    lemma_view_json(*self);
                    lemma_view_entries(es@);
                    lemma_find_key_from(view_entries(es@), key@, 0);
                }
                let n = es.len();
                let mut i: usize = 0;
                while i < n
                    invariant
                        n == es@.len(),
                        i <= n,
                        self@ == JsonV::Object(view_entries(es@)),
                        view_entries(es@).len() == n,
                        forall|m: int| 0 <= m < n ==> #[trigger] view_entries(es@)[m] == (es@[m].0@, view_json(es@[m].1)),
                        find_key(view_entries(es@), key@) == find_key_from(view_entries(es@), key@, i as int),
                    decreases n - i,
                {
                    proof {
                        lemma_find_key_step(view_entries(es@), key@, i as int);
                    }
                    if same_text(&es[i].0, key) {
                        return Some(&es[i].1);
                    }
                    i = i + 1;
                }
                None
            },
            _ => None,
        }
    }

    /// The value reached by following `path`, one key per step.
    pub fn at(&self, path: &[&str]) -> (r: Option<&Json>)
        ensures
            match at_path(self@, path@.map_values(|k: &str| k@)) {
                Some(v) => r is Some && r->0@ == v,
                None => r is None,
            },
    {
        let mut cur: &Json = self;
        let n = path.len();
        let ghost keys = path@.map_values(|k: &str| k@);
        let mut i: usize = 0;
        proof {
            assert(keys.skip(0) =~= keys);
        }
        while i < n
            invariant
                n == path@.len(),
                keys == path@.map_values(|k: &str| k@),
                i <= n,
                at_path(self@, keys) == at_path(cur@, keys.skip(i as int)),
            decreases n - i,
        {
            proof {
                assert(keys.skip(i as int)[0] == path@[i as int]@);
                assert(keys.skip(i as int).drop_first() =~= keys.skip(i + 1));
            }
            match cur.get(path[i]) {
                Some(c) => {
                    cur = c;
                },
                None => {
                    return None;
                },
            }
            i = i + 1;
        }
        proof {
            assert(keys.skip(n as int) =~= Seq::<Seq<char>>::empty());
        }
        Some(cur)
    }

    /// The text of a string value.
    pub fn as_str(&self) -> (r: Option<&str>)
        ensures
            match self@ {
                JsonV::Str(s) => r is Some && r->0@ == s,
                _ => r is None,
            },
    {
        match self {
            Json::Str(s) => Some(s.as_str()),
            _ => None,
        }
    }

    /// The value of a boolean.
    pub fn as_bool(&self) -> (r: Option<bool>)
        ensures
            match self@ {
                JsonV::Bool(b) => r == Some(b),
                _ => r is None,
            },
    {
        match self {
            Json::Bool(b) => Some(*b),
            _ => None,
        }
    }

    /// The elements of an array.
    pub fn as_array(&self) -> (r: Option<&Vec<Json>>)
        ensures
            match self@ {
                JsonV::Array(items) => r is Some && view_items(r->0@) == items,
                _ => r is None,
            },
    {
        match self {
            Json::Array(v) => Some(v),
            _ => None,
        }
    }
}

/// The number a JSON value holds, when it is a non-negative integer that fits
/// in a `u64`.
pub open spec fn u64_of(j: Option<JsonV>) -> Option<u64> {
    match j {
        Some(JsonV::Number(t)) => if is_decimal(t) && decimal_value(t) <= u64::MAX {
            Some(decimal_value(t) as u64)
        } else {
            None
        },
        _ => None,
    }
}

/// `es` with the entry for `k` set to `v`: replaced in place when present,
/// appended otherwise.
pub open spec fn put_entry(es: Seq<(Seq<char>, JsonV)>, k: Seq<char>, v: JsonV) -> Seq<(Seq<char>, JsonV)> {
    match find_key(es, k) {
        Some(i) => es.update(i, (k, v)),
        None => es.push((k, v)),
    }
}

impl Json {
    /// A JSON string.
    pub fn text(s: &str) -> (r: Json)
        ensures
            r@ == JsonV::Str(s@),
    {
        Json::Str(s.to_string())
    }

    /// A JSON number holding `n`.
    pub fn num(n: u64) -> (r: Json)
        ensures
            r@ == JsonV::Number(decimal(n as nat)),
    {
        Json::Number(string_of(&decimal_chars(n)))
    }

    /// The number held, when it is a non-negative integer that fits in a `u64`.
    pub fn as_u64(&self) -> (r: Option<u64>)
        ensures
            r == u64_of(Some(self@)),
    {
        match self {
            Json::Number(t) => parse_u64(&chars_of(t.as_str())),
            _ => None,
        }
    }

    /// Whether this is `null`.
    pub fn is_null(&self) -> (r: bool)
        ensures
            r == (self@ is Null),
    {
        match self {
            Json::Null => true,
            _ => false,
        }
    }

    /// An empty object.
    pub fn object() -> (r: Json)
        ensures
            r@ == JsonV::Object(Seq::empty()),
    {
        Json::Object(Vec::new())
    }

    /// An array of the given strings.
    pub fn text_array(items: &Vec<String>) -> (r: Json)
        ensures
            r@ == JsonV::Array(Seq::new(items@.len(), |i: int| JsonV::Str(items@[i]@))),
    {
        let mut v: Vec<Json> = Vec::new();
        for i in 0..items.len()
            invariant
                view_items(v@) == Seq::new(i as nat, |k: int| JsonV::Str(items@[k]@)),
        {
            let ghost before = v@;
            v.push(Json::Str(items[i].clone()));
            proof {
                assert(v@.drop_last() == before);
                lemma_view_items(v@);
                lemma_view_items(before);
                assert(view_items(v@) =~= Seq::new((i + 1) as nat, |k: int| JsonV::Str(items@[k]@)));
            }
        }
        Json::Array(v)
    }

    /// A copy of this value.
    #[verifier::loop_isolation(false)]
    pub fn copy(&self) -> (r: Json)
        ensures
            r@ == self@,
        decreases self,
    {
        match self {
            Json::Null => Json::Null,
            Json::Bool(b) => Json::Bool(*b),
            Json::Number(n) => Json::Number(n.clone()),
            Json::Str(s) => Json::Str(s.clone()),
            Json::Array(items) => {
                let mut out: Vec<Json> = Vec::new();
                let n = items.len();
                for i in 0..n
                    invariant
                        n == items@.len(),
                        view_items(out@) == view_items(items@.take(i as int)),
                {
                    proof {
                        assert(decreases_to!(*self => (*self)->Array_0));
                        assert(decreases_to!((*self)->Array_0 => (*self)->Array_0@));
                        assert(decreases_to!((*self)->Array_0@ => (*self)->Array_0@[i as int]));
                    }
                    let c = items[i].copy();
                    let ghost before = out@;
                    out.push(c);
                    proof {
                        assert(out@.drop_last() == before);
                        assert(items@.take(i + 1).drop_last() =~= items@.take(i as int));
                    }
                }
                proof {
                    assert(items@.take(n as int) =~= items@);
                }
                Json::Array(out)
            },
            Json::Object(es) => {
                let mut out: Vec<(String, Json)> = Vec::new();
                let n = es.len();
                for i in 0..n
                    invariant
                        n == es@.len(),
                        view_entries(out@) == view_entries(es@.take(i as int)),
                {
                    proof {
                        assert(decreases_to!(*self => (*self)->Object_0));
                        assert(decreases_to!((*self)->Object_0 => (*self)->Object_0@));
                        assert(decreases_to!((*self)->Object_0@ => (*self)->Object_0@[i as int]));
                        assert(decreases_to!((*self)->Object_0@[i as int] => (*self)->Object_0@[i as int].1));
                    }
                    let c = es[i].1.copy();
                    let k = es[i].0.clone();
                    let ghost before = out@;
                    out.push((k, c));
                    proof {
                        assert(out@.drop_last() == before);
                        assert(es@.take(i + 1).drop_last() =~= es@.take(i as int));
                    }
                }
                proof {
                    assert(es@.take(n as int) =~= es@);
                }
                Json::Object(out)
            },
        }
    }

    /// The position of the first entry of an object whose key is `key`.
    pub fn key_index(&self, key: &str) -> (r: Option<usize>)
        ensures
            match self@ {
                JsonV::Object(es) => match find_key(es, key@) {
                    Some(i) => r == Some(i as usize),
                    None => r is None,
                },
                _ => r is None,
            },
    {
        match self {
            Json::Object(es) => {
                proof {
                    lemma_view_json(*self);
                    lemma_view_entries(es@);
                }
                let n = es.len();
                let mut i: usize = 0;
                while i < n
                    invariant
                        n == es@.len(),
                        i <= n,
                        self@ == JsonV::Object(view_entries(es@)),
                        view_entries(es@).len() == n,
                        forall|m: int| 0 <= m < n ==> #[trigger] view_entries(es@)[m] == (es@[m].0@, view_json(es@[m].1)),
                        find_key(view_entries(es@), key@) == find_key_from(view_entries(es@), key@, i as int),
                    decreases n - i,
                {
                    proof {
                        lemma_find_key_step(view_entries(es@), key@, i as int);
                    }
                    if same_text(&es[i].0, key) {
                        return Some(i);
                    }
                    i = i + 1;
                }
                None
            },
            _ => None,
        }
    }

    /// Sets member `key` of an object to `value`: in place when the key is
    /// present, appended otherwise.
    pub fn set(&mut self, key: &str, value: Json)
        requires
            old(self)@ is Object,
        ensures
            final(self)@ == JsonV::Object(put_entry(old(self)@->Object_0, key@, value@)),
    {
        proof {
            lemma_view_json(*self);
        }
        let ghost v = value@;
        let ghost pre: Json = *self;
        let idx = self.key_index(key);
        assert(match pre@ {
            JsonV::Object(es) => match find_key(es, key@) {
                Some(i) => idx == Some(i as usize),
                None => idx is None,
            },
            _ => idx is None,
        });
        if let Json::Object(es) = self {
            let ghost old_es = es@;
            proof {
                lemma_view_json(pre);
            }
            assert(old_es == pre->Object_0@);
            assert(pre@ == JsonV::Object(view_entries(old_es)));
            let ghost ve = view_entries(old_es);
            proof {
                lemma_view_entries(old_es);
                lemma_find_key_from(ve, key@, 0);
            }
            match idx {
                Some(i) => {
                    let _n = es.len();
                    let k = es[i].0.clone();
                    es.set(i, (k, value));
                    proof {
                        lemma_view_entries(es@);
                        assert forall|m: int| 0 <= m < es@.len() implies #[trigger] view_entries(es@)[m]
                            == put_entry(ve, key@, v)[m] by {
                            if m != i {
                                assert(es@[m] == old_es[m]);
                            }
                        }
                        assert(view_entries(es@) =~= put_entry(ve, key@, v));
                    }
                },
                None => {
                    es.push((key.to_string(), value));
                    proof {
                        lemma_view_entries(es@);
                        assert forall|m: int| 0 <= m < es@.len() implies #[trigger] view_entries(es@)[m]
                            == put_entry(ve, key@, v)[m] by {
                            if m < old_es.len() {
                                assert(es@[m] == old_es[m]);
                            }
                        }
                        assert(view_entries(es@) =~= put_entry(ve, key@, v));
                    }
                },
            }
        }
        proof {
            lemma_view_json(*self);
        }
    }
}

/// The member `k` among entries `es`.
pub open spec fn entry_value(es: Seq<(Seq<char>, JsonV)>, k: Seq<char>) -> Option<JsonV> {
    match find_key(es, k) {
        Some(i) => Some(es[i].1),
        None => None,
    }
}

/// Deep merge of `over` onto `base`: objects recursively, everything else by
/// replacement.
pub open spec fn merged(base: JsonV, over: JsonV) -> JsonV
    decreases over,
{
    match over {
        JsonV::Object(o) => match base {
            JsonV::Object(b) => JsonV::Object(merged_entries(b, o)),
            _ => over,
        },
        _ => over,
    }
}

/// The entries of `b` with each entry of `o` merged in, in order.
pub open spec fn merged_entries(b: Seq<(Seq<char>, JsonV)>, o: Seq<(Seq<char>, JsonV)>) -> Seq<(Seq<char>, JsonV)>
    decreases o,
{
    if o.len() == 0 {
        b
    } else {
        let k = o[o.len() - 1].0;
        let v = o[o.len() - 1].1;
        let m = match entry_value(b, k) {
            Some(bv) => merged(bv, v),
            None => v,
        };
        put_entry(merged_entries(b, o.drop_last()), k, m)
    }
}

/// What member `k` of the merge holds when `over` gives it `v`.
pub open spec fn merged_member(b: Seq<(Seq<char>, JsonV)>, k: Seq<char>, v: JsonV) -> JsonV {
    match entry_value(b, k) {
        Some(bv) => merged(bv, v),
        None => v,
    }
}

/// Deep-merge `over` onto `base`, objects recursively and everything else by
/// replacement — so a partial `loop.json` inherits the defaults it omits.
#[verifier::loop_isolation(false)]
pub fn merge(base: &Json, over: &Json) -> (r: Json)
    ensures
        r@ == merged(base@, over@),
        well_formed(base@) && well_formed(over@) ==> well_formed(r@),
    decreases over,
{
    proof {
        lemma_view_json(*base);
        lemma_view_json(*over);
        if well_formed(base@) && well_formed(over@) {
            lemma_merged_well_formed(base@, over@);
        }
    }
    match (base, over) {
        (Json::Object(b), Json::Object(o)) => {
            let ghost bv = view_entries(b@);
            let ghost ov = view_entries(o@);
            proof {
                lemma_view_entries(o@);
            }
            let mut out = base.copy();
            let n = o.len();
            proof {
                assert(ov.take(0) =~= Seq::<(Seq<char>, JsonV)>::empty());
            }
            for i in 0..n
                invariant
                    n == o@.len(),
                    out@ == JsonV::Object(merged_entries(bv, ov.take(i as int))),
            {
                proof {
                    assert(decreases_to!(*over => (*over)->Object_0));
                    assert(decreases_to!((*over)->Object_0 => (*over)->Object_0@));
                    assert(decreases_to!((*over)->Object_0@ => (*over)->Object_0@[i as int]));
                    assert(decreases_to!((*over)->Object_0@[i as int] => (*over)->Object_0@[i as int].1));
                }
                let m = match base.get(o[i].0.as_str()) {
                    Some(x) => merge(x, &o[i].1),
                    None => o[i].1.copy(),
                };
                out.set(o[i].0.as_str(), m);
                proof {
                    assert(ov.take(i + 1).drop_last() =~= ov.take(i as int));
                    assert(ov.take(i + 1)[i as int] == ov[i as int]);
                }
            }
            proof {
                assert(ov.take(n as int) =~= ov);
            }
            out
        },
        _ => over.copy(),
    }
}

/// Each key occurs at most once among the entries.
pub open spec fn unique_keys(es: Seq<(Seq<char>, JsonV)>) -> bool {
    forall|i: int, j: int| 0 <= i < j < es.len() ==> #[trigger] es[i].0 != #[trigger] es[j].0
}

/// `find_key` gives the first position holding the key.
proof fn lemma_find_key_first(es: Seq<(Seq<char>, JsonV)>, k: Seq<char>, j: int)
    requires
        0 <= j < es.len(),
        es[j].0 == k,
        forall|m: int| 0 <= m < j ==> es[m].0 != k,
    ensures
        find_key(es, k) == Some(j),
{
    lemma_find_key_from(es, k, 0);
}

/// `find_key` finds nothing when no entry holds the key.
proof fn lemma_find_key_none(es: Seq<(Seq<char>, JsonV)>, k: Seq<char>)
    requires
        forall|m: int| 0 <= m < es.len() ==> es[m].0 != k,
    ensures
        find_key(es, k) is None,
{
    lemma_find_key_from(es, k, 0);
}

/// Reading back a key just set gives the value set; other keys are untouched.
pub proof fn lemma_put_entry(es: Seq<(Seq<char>, JsonV)>, k: Seq<char>, v: JsonV, k2: Seq<char>)
    ensures
        entry_value(put_entry(es, k, v), k2) == if k2 == k {
            Some(v)
        } else {
            entry_value(es, k2)
        },
{
    lemma_find_key_from(es, k, 0);
    lemma_find_key_from(es, k2, 0);
    let es2 = put_entry(es, k, v);
    match find_key(es, k) {
        Some(i) => {
            assert forall|m: int| 0 <= m < es.len() implies #[trigger] es2[m].0 == es[m].0 by {}
            if k2 == k {
                lemma_find_key_first(es2, k, i);
            } else {
                match find_key(es, k2) {
                    Some(j) => {
                        lemma_find_key_first(es2, k2, j);
                    },
                    None => {
                        lemma_find_key_none(es2, k2);
                    },
                }
            }
        },
        None => {
            if k2 == k {
                lemma_find_key_first(es2, k, es.len() as int);
            } else {
                match find_key(es, k2) {
                    Some(j) => {
                        lemma_find_key_first(es2, k2, j);
                    },
                    None => {
                        lemma_find_key_none(es2, k2);
                    },
                }
            }
        },
    }
}

/// A key of the merge holds what `over` gives it, merged onto what `base`
/// gives it; a key `over` does not name keeps the value `base` gives it.
proof fn lemma_merged_entries(b: Seq<(Seq<char>, JsonV)>, o: Seq<(Seq<char>, JsonV)>, k: Seq<char>)
    requires
        unique_keys(o),
    ensures
        entry_value(merged_entries(b, o), k) == match entry_value(o, k) {
            Some(v) => Some(merged_member(b, k, v)),
            None => entry_value(b, k),
        },
    decreases o.len(),
{
    if o.len() > 0 {
        let rest = o.drop_last();
        let last = o.len() - 1;
        assert(unique_keys(rest));
        lemma_merged_entries(b, rest, k);
        let k0 = o[last].0;
        let v0 = o[last].1;
        lemma_put_entry(merged_entries(b, rest), k0, merged_member(b, k0, v0), k);
        lemma_find_key_from(rest, k, 0);
        if k == k0 {
            assert forall|m: int| 0 <= m < last implies o[m].0 != k by {
                assert(o[m].0 != o[last].0);
            }
            lemma_find_key_first(o, k, last);
        } else {
            match find_key(rest, k) {
                Some(j) => {
                    lemma_find_key_first(o, k, j);
                },
                None => {
                    assert forall|m: int| 0 <= m < o.len() implies o[m].0 != k by {
                        if m < last {
                            assert(rest[m] == o[m]);
                        }
                    }
                    lemma_find_key_none(o, k);
                },
            }
        }
    }
}

/// Every entry's value is well formed and no key occurs twice.
pub open spec fn entries_well_formed(es: Seq<(Seq<char>, JsonV)>) -> bool {
    unique_keys(es) && forall|i: int| 0 <= i < es.len() ==> well_formed(#[trigger] es[i].1)
}

/// Setting a well-formed value keeps the entries well formed.
pub proof fn lemma_put_entry_well_formed(es: Seq<(Seq<char>, JsonV)>, k: Seq<char>, v: JsonV)
    requires
        entries_well_formed(es),
        well_formed(v),
    ensures
        entries_well_formed(put_entry(es, k, v)),
{
    lemma_find_key_from(es, k, 0);
    let es2 = put_entry(es, k, v);
    match find_key(es, k) {
        Some(i) => {
            assert forall|a: int, b: int| 0 <= a < b < es2.len() implies #[trigger] es2[a].0 != #[trigger] es2[b].0 by {
                assert(es2[a].0 == es[a].0);
                assert(es2[b].0 == es[b].0);
            }
        },
        None => {
            assert forall|a: int, b: int| 0 <= a < b < es2.len() implies #[trigger] es2[a].0 != #[trigger] es2[b].0 by {
                if b < es.len() {
                    assert(es2[a] == es[a]);
                    assert(es2[b] == es[b]);
                }
            }
        },
    }
    assert forall|i: int| 0 <= i < es2.len() implies well_formed(#[trigger] es2[i].1) by {
        if es2[i] != (k, v) {
            assert(es2[i] == es[i]);
        }
    }
}

/// The member a well-formed object holds under a key is well formed.
pub proof fn lemma_entry_value_well_formed(es: Seq<(Seq<char>, JsonV)>, k: Seq<char>)
    requires
        entries_well_formed(es),
    ensures
        entry_value(es, k) matches Some(v) ==> well_formed(v),
{
    lemma_find_key_from(es, k, 0);
}

/// Merging entries whose merged members are well formed keeps the entries well
/// formed.
proof fn lemma_merged_entries_well_formed(b: Seq<(Seq<char>, JsonV)>, o: Seq<(Seq<char>, JsonV)>)
    requires
        entries_well_formed(b),
        forall|i: int| 0 <= i < o.len() ==> well_formed(#[trigger] merged_member(b, o[i].0, o[i].1)),
    ensures
        entries_well_formed(merged_entries(b, o)),
    decreases o.len(),
{
    if o.len() > 0 {
        let rest = o.drop_last();
        assert forall|i: int| 0 <= i < rest.len() implies well_formed(#[trigger] merged_member(b, rest[i].0, rest[i].1)) by {
            assert(rest[i] == o[i]);
            assert(well_formed(merged_member(b, o[i].0, o[i].1)));
        }
        lemma_merged_entries_well_formed(b, rest);
        let last = o.len() - 1;
        assert(well_formed(merged_member(b, o[last].0, o[last].1)));
        lemma_put_entry_well_formed(merged_entries(b, rest), o[last].0, merged_member(b, o[last].0, o[last].1));
    }
}

/// The deep merge of two well-formed values is well formed.
pub proof fn lemma_merged_well_formed(base: JsonV, over: JsonV)
    requires
        well_formed(base),
        well_formed(over),
    ensures
        well_formed(merged(base, over)),
    decreases over,
{
    match over {
        JsonV::Object(o) => match base {
            JsonV::Object(b) => {
                assert forall|i: int| 0 <= i < o.len() implies well_formed(#[trigger] merged_member(b, o[i].0, o[i].1)) by {
                    assert(decreases_to!(over => o));
                    assert(decreases_to!(o => o[i]));
                    assert(decreases_to!(o[i] => o[i].1));
                    assert(well_formed(o[i].1));
                    lemma_entry_value_well_formed(b, o[i].0);
                    match entry_value(b, o[i].0) {
                        Some(bv) => {
                            lemma_merged_well_formed(bv, o[i].1);
                        },
                        None => {},
                    }
                }
                lemma_merged_entries_well_formed(b, o);
            },
            _ => {},
        },
        _ => {},
    }
}

/// Deep merge, for well-formed values: when both are objects, the result is
/// an object holding the keys of either; a key only `base` names keeps its
/// value, a key only `over` names takes its value, and a key both name holds
/// the deep merge of the two values. Otherwise `over` replaces `base`. The
/// result is well formed again.
pub proof fn lemma_merge_law(base: JsonV, over: JsonV, k: Seq<char>)
    requires
        well_formed(base),
        well_formed(over),
    ensures
        well_formed(merged(base, over)),
        base is Object && over is Object ==> merged(base, over) is Object && member(merged(base, over), k) == match (member(base, k), member(over, k)) {
            (Some(bv), Some(ov)) => Some(merged(bv, ov)),
            (None, Some(ov)) => Some(ov),
            (Some(bv), None) => Some(bv),
            (None, None) => None::<JsonV>,
        },
        !(base is Object && over is Object) ==> merged(base, over) == over,
{
    lemma_merged_well_formed(base, over);
    if base is Object && over is Object {
        lemma_merged_entries(base->Object_0, over->Object_0, k);
    }
}

/// Merging a value that is not an object replaces what was there.
pub proof fn lemma_merge_replaces_non_objects(base: JsonV, over: JsonV)
    requires
        !(over is Object),
    ensures
        merged(base, over) == over,
{
}

/// Merging an empty object changes nothing.
pub proof fn lemma_merge_empty_is_identity(base: JsonV)
    requires
        base is Object,
    ensures
        merged(base, JsonV::Object(Seq::empty())) == base,
{
}

/// Every object in `v`, at any depth, names each key once — as parsed JSON
/// always does.
pub open spec fn well_formed(v: JsonV) -> bool
    decreases v,
{
    match v {
        JsonV::Object(es) => unique_keys(es) && forall|i: int| 0 <= i < es.len() ==> well_formed(#[trigger] es[i].1),
        JsonV::Array(items) => forall|i: int| 0 <= i < items.len() ==> well_formed(#[trigger] items[i]),
        _ => true,
    }
}

pub proof fn lemma_well_formed_unfold(v: JsonV)
    ensures
        well_formed(v) == match v {
            JsonV::Object(es) => unique_keys(es) && forall|i: int| 0 <= i < es.len() ==> well_formed(#[trigger] es[i].1),
            JsonV::Array(items) => forall|i: int| 0 <= i < items.len() ==> well_formed(#[trigger] items[i]),
            _ => true,
        },
{
}

/// With unique keys, each entry is the one `entry_value` finds for its key.
pub proof fn lemma_entry_value_unique(es: Seq<(Seq<char>, JsonV)>, i: int)
    requires
        unique_keys(es),
        0 <= i < es.len(),
    ensures
        entry_value(es, es[i].0) == Some(es[i].1),
{
    assert forall|m: int| 0 <= m < i implies es[m].0 != es[i].0 by {}
    lemma_find_key_first(es, es[i].0, i);
}

/// Stands for `serde_json::Value`, which only the parser below produces.
#[verifier::external_type_specification]
#[verifier::external_body]
pub struct ExValue(serde_json::Value);

/// What `text` holds when read as JSON by `serde_json::from_str`; nothing when
/// it is not JSON.
pub uninterp spec fn json_text_value(text: Seq<char>) -> Option<JsonV>;

/// The message `serde_json::from_str::<serde_json::Value>` gives for `text`
/// when it refuses it, as the error's `Display` impl writes it.
pub uninterp spec fn json_error_text(text: Seq<char>) -> Seq<char>;

/// Reads `text` as JSON with `serde_json::from_str::<serde_json::Value>`.
///
/// Trusted: it succeeds exactly when `json_text_value` of the text names a
/// value, and then gives that value, whose objects name each key once
/// (serde_json keeps object members in a map); when it fails, the error is the
/// parser's message, `json_error_text` of the text. What the parser accepts is
/// not restated here.
#[verifier::external_body]
pub(crate) fn parse_json(text: &str) -> (r: Result<Json, String>)
    ensures
        r is Ok <==> json_text_value(text@) is Some,
        r matches Ok(j) ==> json_text_value(text@) == Some(j@) && well_formed(j@),
        r matches Err(m) ==> m@ == json_error_text(text@),
{
    match serde_json::from_str::<serde_json::Value>(text) {
        Ok(v) => Ok(from_value(&v)),
        Err(e) => Err(e.to_string()),
    }
}

/// Converts a `serde_json::Value` to a `Json`, variant for variant; numbers keep
/// the text serde_json writes for them.
#[verifier::external_body]
fn from_value(v: &serde_json::Value) -> Json {
    match v {
        serde_json::Value::Null => Json::Null,
        serde_json::Value::Bool(b) => Json::Bool(*b),
        serde_json::Value::Number(n) => Json::Number(n.to_string()),
        serde_json::Value::String(s) => Json::Str(s.clone()),
        serde_json::Value::Array(a) => Json::Array(a.iter().map(from_value).collect()),
        serde_json::Value::Object(m) => Json::Object(m.iter().map(|(k, x)| (k.clone(), from_value(x))).collect()),
    }
}

/// Converts a `Json` to a `serde_json::Value`, variant for variant; a number
/// whose text serde_json does not read as a number becomes `null`.
#[verifier::external_body]
fn to_value(j: &Json) -> serde_json::Value {
    match j {
        Json::Null => serde_json::Value::Null,
        Json::Bool(b) => serde_json::Value::Bool(*b),
        Json::Number(t) => t.parse::<serde_json::Number>().map(serde_json::Value::Number).unwrap_or(serde_json::Value::Null),
        Json::Str(s) => serde_json::Value::String(s.clone()),
        Json::Array(items) => serde_json::Value::Array(items.iter().map(to_value).collect()),
        Json::Object(es) => serde_json::Value::Object(es.iter().map(|(k, v)| (k.clone(), to_value(v))).collect()),
    }
}

/// The text `serde_json::to_string` writes for the value `v`.
pub uninterp spec fn json_compact_text(v: JsonV) -> Seq<char>;

/// The text `serde_json::to_string_pretty` writes for the value `v`.
pub uninterp spec fn json_pretty_text(v: JsonV) -> Seq<char>;

/// Writes `j` as compact JSON with `serde_json::to_string`.
///
/// Trusted: the text is `json_compact_text` of the value.
#[verifier::external_body]
pub(crate) fn compact_text(j: &Json) -> (r: String)
    ensures
        r@ == json_compact_text(j@),
{
    serde_json::to_string(&to_value(j)).unwrap_or_default()
}

/// Every array or object in `v` lies at most `d` levels deep.
pub open spec fn nesting_at_most(v: JsonV, d: nat) -> bool
    decreases v,
{
    match v {
        JsonV::Array(items) => d >= 1 && forall|i: int| 0 <= i < items.len() ==> nesting_at_most(#[trigger] items[i], (d - 1) as nat),
        JsonV::Object(es) => d >= 1 && forall|i: int| 0 <= i < es.len() ==> nesting_at_most(#[trigger] es[i].1, (d - 1) as nat),
        _ => true,
    }
}

/// How the value `w` read back from the written text of `v` relates to `v`:
/// strings, booleans and `null` come back as they were, arrays element for
/// element, objects with the same keys (each once, in whatever order the reader
/// keeps them) each holding what it held; a number comes back as a number, or
/// as `null` when its text was not a number to serde_json.
pub open spec fn reads_as(v: JsonV, w: JsonV) -> bool
    decreases v,
{
    match v {
        JsonV::Number(_) => w is Number || w is Null,
        JsonV::Array(a) => match w {
            JsonV::Array(b) => a.len() == b.len() && forall|i: int| 0 <= i < a.len() ==> reads_as(#[trigger] a[i], b[i]),
            _ => false,
        },
        JsonV::Object(es) => match w {
            JsonV::Object(ws) => {
                &&& unique_keys(ws)
                &&& forall|k: Seq<char>| #![trigger entry_value(ws, k)] entry_value(ws, k) is Some ==> entry_value(es, k) is Some
                &&& forall|i: int| 0 <= i < es.len() ==> match #[trigger] entry_value(ws, es[i].0) {
                    Some(x) => reads_as(es[i].1, x),
                    None => false,
                }
            },
            _ => false,
        },
        _ => w == v,
    }
}

/// Writes `j` as the text of a JSON file: `serde_json::to_string_pretty`, then
/// a newline.
///
/// Trusted: the text is `json_pretty_text` of the value and a newline; and a
/// well-formed value nested at most 127 levels deep (serde_json reads 127
/// levels, de.rs `remaining_depth`) is read back by `serde_json::from_str`
/// (which skips the trailing whitespace) as a value that `reads_as` relates to
/// it — the printer writes every member and element, and the reader keeps
/// them. Which numbers come back with which text is not stated.
#[verifier::external_body]
fn pretty_file_text(j: &Json) -> (r: String)
    ensures
        r@ == json_pretty_text(j@) + "\n"@,
        json_text_value(r@) is Some || !(well_formed(j@) && nesting_at_most(j@, 127)),
        reads_as(j@, json_text_value(r@)->Some_0) || !(well_formed(j@) && nesting_at_most(j@, 127)),
{
    format!("{}\n", serde_json::to_string_pretty(&to_value(j)).unwrap_or_default())
}

/// The text of a JSON file holding `j`: pretty-printed, then a newline. A
/// well-formed value that is not nested too deep reads back from it with
/// every member and element it holds.
pub fn json_file_text(j: &Json) -> (r: String)
    ensures
        r@ == json_pretty_text(j@) + "\n"@,
        well_formed(j@) && nesting_at_most(j@, 127) ==> (json_text_value(r@) matches Some(w) && reads_as(j@, w)),
{
    pretty_file_text(j)
}

/// The member `k2` of the member `k1` of `j`.
pub open spec fn member2(j: JsonV, k1: Seq<char>, k2: Seq<char>) -> Option<JsonV> {
    match member(j, k1) {
        Some(c) => member(c, k2),
        None => None,
    }
}

impl Json {
    /// The member `k2` of the member `k1`.
    pub fn get2(&self, k1: &str, k2: &str) -> (r: Option<&Json>)
        ensures
            match member2(self@, k1@, k2@) {
                Some(v) => r is Some && r->0@ == v,
                None => r is None,
            },
    {
        match self.get(k1) {
            Some(c) => c.get(k2),
            None => None,
        }
    }
}

} // verus!
