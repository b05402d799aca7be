//! The approved requests a round may open on, and the numbering of rounds.

use vstd::prelude::*;
use crate::control::{has_prefix, starts_with};
use crate::guard::same_str;
use crate::text::{chars_of, string_of, texts, lemma_texts, push_text, joined, join, lex_lt, lex_less, lemma_lex_transitive, lemma_lex_asymmetric, lemma_lex_total, lemma_lex_irreflexive, views_of, is_decimal, decimal_value, parse_u64};

verus! {

/// Non-strictly increasing in lexicographic order.
pub open spec fn sorted_le(s: Seq<Seq<char>>) -> bool {
    forall|i: int, j: int| 0 <= i < j < s.len() ==> !lex_lt(#[trigger] s[j], #[trigger] s[i])
}

/// Adds `x` to the sorted list `s`, after the elements it does not precede.
pub fn insert_in_order(s: &mut Vec<Vec<char>>, x: Vec<char>)
    requires
        sorted_le(views_of(old(s)@)),
    ensures
        sorted_le(views_of(final(s)@)),
        views_of(final(s)@).to_multiset() == views_of(old(s)@).to_multiset().insert(x@),
{
    let ghost before = views_of(s@);
    let n = s.len();
    let mut i: usize = 0;
    while i < n && !lex_less(&x, &s[i])
        invariant
            n == s@.len(),
            i <= n,
            before == views_of(s@),
            forall|k: int| 0 <= k < i ==> !lex_lt(x@, #[trigger] before[k]),
        decreases n - i,
    {
        i = i + 1;
    }
    let ghost xv = x@;
    s.insert(i, x);
    proof {
        let after = views_of(s@);
        assert(after =~= before.insert(i as int, xv));
        vstd::seq_lib::to_multiset_insert(before, i as int, xv);
        assert forall|a: int, b: int| 0 <= a < b < after.len() implies !lex_lt(#[trigger] after[b], #[trigger] after[a]) by {
            if a < i && b < i {
                assert(after[a] == before[a] && after[b] == before[b]);
            } else if a < i && b == i {
                assert(after[a] == before[a]);
            } else if a < i && b > i {
                assert(after[a] == before[a] && after[b] == before[b - 1]);
            } else if a == i {
                assert(after[b] == before[b - 1]);
                assert(lex_lt(xv, before[i as int]));
                if lex_lt(before[b - 1], xv) {
                    if b - 1 == i {
                        lemma_lex_asymmetric(xv, before[i as int]);
                    } else {
                        lemma_lex_transitive(before[b - 1], xv, before[i as int]);
                    }
                }
            } else {
                assert(after[a] == before[a - 1] && after[b] == before[b - 1]);
            }
        }
    }
}

/// Position of the last `.` in `s` before `i`, or -1.
pub open spec fn last_dot_before(s: Seq<char>, i: int) -> int
    decreases i,
{
    if i <= 0 || i > s.len() {
        -1
    } else if s[i - 1] == '.' {
        i - 1
    } else {
        last_dot_before(s, i - 1)
    }
}

pub proof fn lemma_last_dot_before(s: Seq<char>, i: int)
    requires
        0 <= i <= s.len(),
    ensures
        -1 <= last_dot_before(s, i) < i,
        last_dot_before(s, i) >= 0 ==> s[last_dot_before(s, i)] == '.',
        forall|k: int| last_dot_before(s, i) < k < i ==> s[k] != '.',
    decreases i,
{
    if i > 0 && s[i - 1] != '.' {
        lemma_last_dot_before(s, i - 1);
    }
}

/// The name of a file without its extension, as `Path::file_stem` gives it:
/// up to the last `.`, unless that dot begins the name.
pub open spec fn file_stem(name: Seq<char>) -> Seq<char> {
    let k = last_dot_before(name, name.len() as int);
    if k <= 0 {
        name
    } else {
        name.take(k)
    }
}

/// The extension of a file name, as `Path::extension` gives it.
pub open spec fn file_ext(name: Seq<char>) -> Option<Seq<char>> {
    let k = last_dot_before(name, name.len() as int);
    if k <= 0 {
        None
    } else {
        Some(name.skip(k + 1))
    }
}

fn last_dot(cs: &Vec<char>) -> (r: usize)
    ensures
        r == 0 || r < cs@.len(),
        r == (if last_dot_before(cs@, cs@.len() as int) <= 0 {
            0
        } else {
            last_dot_before(cs@, cs@.len() as int)
        }),
{
    let mut i = cs.len();
    proof {
        lemma_last_dot_before(cs@, cs@.len() as int);
    }
    while i > 0 && cs[i - 1] != '.'
        invariant
            i <= cs@.len(),
            last_dot_before(cs@, cs@.len() as int) == last_dot_before(cs@, i as int),
        decreases i,
    {
        i = i - 1;
    }
    if i == 0 {
        0
    } else {
        i - 1
    }
}

/// The name of a file without its extension.
pub fn stem(name: &str) -> (r: String)
    ensures
        r@ == file_stem(name@),
{
    let cs = chars_of(name);
    let k = last_dot(&cs);
    if k == 0 {
        return name.to_string();
    }
    let mut out: Vec<char> = Vec::new();
    for i in 0..k
        invariant
            cs@ == name@,
            k < cs@.len(),
            out@ == name@.take(i as int),
    {
        out.push(cs[i]);
        proof {
            assert(out@ =~= name@.take(i + 1));
        }
    }
    string_of(&out)
}

/// The name under which a round keeps a copy of its request: `request`
/// with the request's extension, or `.txt` when it has none.
pub open spec fn request_copy(name: Seq<char>) -> Seq<char> {
    match file_ext(name) {
        Some(e) => "request."@ + e,
        None => "request.txt"@,
    }
}

/// The name under which a round keeps a copy of its request.
pub fn request_copy_name(name: &str) -> (r: String)
    ensures
        r@ == request_copy(name@),
{
    let cs = chars_of(name);
    let k = last_dot(&cs);
    if k == 0 {
        return "request.txt".to_string();
    }
    let mut out: Vec<char> = Vec::new();
    let n = cs.len();
    let mut i = k + 1;
    while i < n
        invariant
            cs@ == name@,
            k < n == cs@.len(),
            k + 1 <= i <= n,
            out@ == name@.subrange(k + 1, i as int),
        decreases n - i,
    {
        out.push(cs[i]);
        i = i + 1;
        proof {
            assert(out@ =~= name@.subrange(k + 1, i as int));
        }
    }
    proof {
        assert(name@.skip(k + 1) =~= name@.subrange(k + 1, n as int));
    }
    let mut m = "request.".to_string();
    m.append(string_of(&out).as_str());
    m
}

/// The requests among a corpus directory's file names: all but its README.
pub open spec fn candidates(names: Seq<Seq<char>>) -> Seq<Seq<char>>
    decreases names.len(),
{
    if names.len() == 0 {
        Seq::empty()
    } else if names.last() != "README.md"@ {
        candidates(names.drop_last()).push(names.last())
    } else {
        candidates(names.drop_last())
    }
}

/// The requests whose file name begins with `id`.
pub open spec fn matching(names: Seq<Seq<char>>, id: Seq<char>) -> Seq<Seq<char>>
    decreases names.len(),
{
    if names.len() == 0 {
        Seq::empty()
    } else if names.last() != "README.md"@ && has_prefix(names.last(), id) {
        matching(names.drop_last(), id).push(names.last())
    } else {
        matching(names.drop_last(), id)
    }
}

/// The refusal of a request id that names no request, listing the requests
/// there are (by stem, in order).
pub open spec fn no_match_message(id: Seq<char>, available: Seq<Seq<char>>) -> Seq<char> {
    "no corpus request matching '"@ + id + "'. Available: "@ + (if available.len() == 0 {
        "(none)"@
    } else {
        joined(available, ", "@)
    })
}

/// The stems of a list of file names.
pub open spec fn stems(names: Seq<Seq<char>>) -> Seq<Seq<char>> {
    Seq::new(names.len(), |i: int| file_stem(names[i]))
}

/// The request a round opens on: among the corpus files (`names`, the names
/// of the files in the corpus directory) whose name begins with `id`, the
/// first in order. With none, the refusal lists the requests there are.
pub fn pick_request(names: &Vec<String>, id: &str) -> (r: Result<String, String>)
    ensures
        matching(texts(names@), id@).len() > 0 ==> (r matches Ok(x) && matching(texts(names@), id@).contains(x@)
            && forall|k: int| 0 <= k < matching(texts(names@), id@).len() ==> !lex_lt(
            #[trigger] matching(texts(names@), id@)[k],
            x@,
        )),
        matching(texts(names@), id@).len() == 0 ==> (r matches Err(e) && exists|avail: Seq<Seq<char>>| sorted_le(avail)
            && avail.to_multiset() == stems(candidates(texts(names@))).to_multiset() && e@ == no_match_message(
            id@,
            avail,
        )),
{
    proof {
        lemma_texts(names@);
        reveal_strlit("README.md");
    }
    let ghost nv = texts(names@);
    let n = names.len();
    let mut any = false;
    let mut b: usize = 0;
    let mut found: Vec<Vec<char>> = Vec::new();
    proof {
        assert(nv.take(0) =~= Seq::<Seq<char>>::empty());
        assert(views_of(found@) =~= Seq::<Seq<char>>::empty());
        assert(stems(candidates(nv.take(0))) =~= Seq::<Seq<char>>::empty());
    }
    let mut i: usize = 0;
    while i < n
        invariant
            n == names@.len(),
            i <= n,
            nv == texts(names@),
            nv.len() == n,
            forall|k: int| 0 <= k < n ==> #[trigger] nv[k] == names@[k]@,
            any ==> b < i && matching(nv.take(i as int), id@).contains(nv[b as int]),
            any ==> forall|k: int| 0 <= k < matching(nv.take(i as int), id@).len() ==> !lex_lt(
                #[trigger] matching(nv.take(i as int), id@)[k],
                nv[b as int],
            ),
            !any ==> matching(nv.take(i as int), id@).len() == 0,
            sorted_le(views_of(found@)),
            views_of(found@).to_multiset() == stems(candidates(nv.take(i as int))).to_multiset(),
        decreases n - i,
    {
        let name = &names[i];
        let ghost t = nv.take(i as int);
        let ghost m0 = matching(t, id@);
        let ghost m1 = matching(nv.take(i + 1), id@);
        proof {
            assert(nv.take(i + 1).drop_last() =~= t);
            assert(nv.take(i + 1).last() == name@);
        }
        if !same_str(name.as_str(), "README.md") {
            let st = chars_of(stem(name.as_str()).as_str());
            let ghost sv = st@;
            insert_in_order(&mut found, st);
            proof {
                assert(candidates(nv.take(i + 1)) == candidates(t).push(name@));
                assert(stems(candidates(nv.take(i + 1))) =~= stems(candidates(t)).push(sv));
                vstd::seq_lib::to_multiset_build(stems(candidates(t)), sv);
            }
            if starts_with(name.as_str(), id) {
                proof {
                    assert(m1 == m0.push(name@));
                }
                let better = if any {
                    lex_less(&chars_of(name.as_str()), &chars_of(names[b].as_str()))
                } else {
                    true
                };
                if better {
                    proof {
                        assert forall|k: int| 0 <= k < m1.len() implies !lex_lt(#[trigger] m1[k], name@) by {
                            if k < m0.len() {
                                assert(m1[k] == m0[k]);
                                assert(any);
                                assert(!lex_lt(m0[k], nv[b as int]));
                                assert(lex_lt(name@, nv[b as int]));
                                if lex_lt(m0[k], name@) {
                                    lemma_lex_transitive(m0[k], name@, nv[b as int]);
                                }
                            } else {
                                assert(m1[k] == name@);
                                lemma_lex_irreflexive(name@);
                            }
                        }
                        assert(m1[m1.len() - 1] == name@);
                    }
                    any = true;
                    b = i;
                } else {
                    proof {
                        assert(!lex_lt(name@, nv[b as int]));
                        assert forall|k: int| 0 <= k < m1.len() implies !lex_lt(#[trigger] m1[k], nv[b as int]) by {
                            if k < m0.len() {
                                assert(m1[k] == m0[k]);
                            } else {
                                assert(m1[k] == name@);
                            }
                        }
                        let j = choose|j: int| 0 <= j < m0.len() && m0[j] == nv[b as int];
                        assert(m1[j] == nv[b as int]);
                    }
                }
            } else {
                proof {
                    assert(m1 == m0);
                }
            }
        } else {
            proof {
                assert(candidates(nv.take(i + 1)) == candidates(t));
                assert(m1 == m0);
            }
        }
        i = i + 1;
    }
    proof {
        assert(nv.take(n as int) =~= nv);
    }
    let best: Option<usize> = if any { Some(b) } else { None };
    match best {
        Some(b) => Ok(names[b].clone()),
        None => {
            let mut m = "no corpus request matching '".to_string();
            m.append(id);
            m.append("'. Available: ");
            if found.len() == 0 {
                m.append("(none)");
            } else {
                let mut v: Vec<String> = Vec::new();
                for k in 0..found.len()
                    invariant
                        texts(v@) == views_of(found@).take(k as int),
                {
                    push_text(&mut v, string_of(&found[k]));
                    proof {
                        assert(texts(v@) =~= views_of(found@).take(k + 1));
                    }
                }
                proof {
                    assert(views_of(found@).take(found@.len() as int) =~= views_of(found@));
                }
                m.append(join(&v, ", ").as_str());
            }
            proof {
                assert(views_of(found@).len() == found@.len());
                assert(sorted_le(views_of(found@)));
            }
            Err(m)
        },
    }
}

/// The number a name spells as `str::parse::<u64>` reads it: decimal digits,
/// optionally after one `+`, that fit in a `u64`.
pub open spec fn parsed_u64(s: Seq<char>) -> Option<u64> {
    let d = if s.len() > 0 && s[0] == '+' {
        s.drop_first()
    } else {
        s
    };
    if is_decimal(d) && decimal_value(d) <= u64::MAX {
        Some(decimal_value(d) as u64)
    } else {
        None
    }
}

/// The number a name spells as `str::parse::<u64>` reads it.
pub fn parse_number(s: &str) -> (r: Option<u64>)
    ensures
        r == parsed_u64(s@),
{
    let cs = chars_of(s);
    if cs.len() > 0 && cs[0] == '+' {
        let mut rest: Vec<char> = Vec::new();
        for i in 1..cs.len()
            invariant
                cs@ == s@,
                cs@.len() > 0,
                rest@ == s@.subrange(1, i as int),
        {
            rest.push(cs[i]);
            proof {
                assert(rest@ =~= s@.subrange(1, i + 1));
            }
        }
        proof {
            assert(s@.drop_first() =~= s@.subrange(1, s@.len() as int));
        }
        parse_u64(&rest)
    } else {
        parse_u64(&cs)
    }
}

/// The highest round number among the names of the rounds directory; 0
/// when none is a number.
pub open spec fn highest_round(names: Seq<Seq<char>>) -> u64
    decreases names.len(),
{
    if names.len() == 0 {
        0
    } else {
        let m = highest_round(names.drop_last());
        match parsed_u64(names.last()) {
            Some(v) => if v > m {
                v
            } else {
                m
            },
            None => m,
        }
    }
}

/// The number the next round takes: one past the highest round directory.
/// Nothing when the highest is already the largest `u64`.
pub fn next_round_number(names: &Vec<String>) -> (r: Option<u64>)
    ensures
        r == (if highest_round(texts(names@)) < u64::MAX {
            Some((highest_round(texts(names@)) + 1) as u64)
        } else {
            None::<u64>
        }),
{
    proof {
        lemma_texts(names@);
    }
    let ghost nv = texts(names@);
    let mut m: u64 = 0;
    let n = names.len();
    for i in 0..n
        invariant
            n == names@.len(),
            nv == texts(names@),
            nv.len() == n,
            forall|k: int| 0 <= k < n ==> #[trigger] nv[k] == names@[k]@,
            m == highest_round(nv.take(i as int)),
    {
        proof {
            assert(nv.take(i + 1).drop_last() =~= nv.take(i as int));
            assert(nv.take(i + 1).last() == names@[i as int]@);
        }
        match parse_number(names[i].as_str()) {
            Some(v) => if v > m {
                m = v;
            },
            None => {},
        }
    }
    proof {
        assert(nv.take(n as int) =~= nv);
    }
    if m < u64::MAX {
        Some(m + 1)
    } else {
        None
    }
}

/// A round's number never repeats: the next number is past every numbered
/// round directory.
pub proof fn lemma_next_round_is_new(names: Seq<Seq<char>>, k: int)
    requires
        0 <= k < names.len(),
        parsed_u64(names[k]) is Some,
    ensures
        parsed_u64(names[k])->0 <= highest_round(names),
    decreases names.len(),
{
    if k < names.len() - 1 {
        lemma_next_round_is_new(names.drop_last(), k);
        assert(names.drop_last()[k] == names[k]);
    }
}

} // verus!
