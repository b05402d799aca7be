//! Path globbing with `**` semantics.
//!
//!   `**/`  zero or more whole path components
//!   `**`   anything, including separators
//!   `*`    anything except a separator
//!   `?`    one character except a separator

use vstd::prelude::*;
use crate::text::chars_of;
use crate::json::{Json, JsonV, lemma_view_items, lemma_view_json, view_items};

verus! {

/// One token of a compiled pattern.
#[derive(PartialEq, Eq, Structural)]
pub enum Tok {
    /// `**/` — zero or more complete components.
    StarStarSlash,
    /// `**` — anything at all.
    StarStar,
    /// `*` — anything within one component.
    Star,
    /// `?` — one character within one component.
    Any,
    Lit(char),
}

/// The token that starts at `s[i]`.
pub open spec fn token_at(s: Seq<char>, i: int) -> Tok {
    if s[i] == '*' && i + 1 < s.len() && s[i + 1] == '*' {
        if i + 2 < s.len() && s[i + 2] == '/' {
            Tok::StarStarSlash
        } else {
            Tok::StarStar
        }
    } else if s[i] == '*' {
        Tok::Star
    } else if s[i] == '?' {
        Tok::Any
    } else {
        Tok::Lit(s[i])
    }
}

/// How many characters the token at `s[i]` spans.
pub open spec fn token_width(s: Seq<char>, i: int) -> int {
    if s[i] == '*' && i + 1 < s.len() && s[i + 1] == '*' {
        if i + 2 < s.len() && s[i + 2] == '/' { 3 } else { 2 }
    } else {
        1
    }
}

/// The tokens of the pattern text `s` from position `i` on.
pub open spec fn tokenize_from(s: Seq<char>, i: int) -> Seq<Tok>
    decreases s.len() - i,
{
    if i < 0 || i >= s.len() {
        Seq::empty()
    } else {
        seq![token_at(s, i)] + tokenize_from(s, i + token_width(s, i))
    }
}

/// The tokens of the pattern text `s`.
pub open spec fn tokenize(s: Seq<char>) -> Seq<Tok> {
    tokenize_from(s, 0)
}

/// No separator among `p[from..to]`.
pub open spec fn no_sep(p: Seq<char>, from: int, to: int) -> bool {
    forall|j: int| from <= j < to ==> p[j] != '/'
}

/// Whether tokens `t[ti..]` match exactly the path characters `p[pi..]`.
pub open spec fn match_at(t: Seq<Tok>, ti: int, p: Seq<char>, pi: int) -> bool
    decreases t.len() - ti, 1int, 0int,
{
    if ti < 0 || ti >= t.len() {
        pi == p.len()
    } else {
        match t[ti] {
            Tok::Lit(c) => 0 <= pi < p.len() && p[pi] == c && match_at(t, ti + 1, p, pi + 1),
            Tok::Any => 0 <= pi < p.len() && p[pi] != '/' && match_at(t, ti + 1, p, pi + 1),
            Tok::Star => star_match(t, ti, p, pi),
            Tok::StarStar => star_star_match(t, ti, p, pi),
            Tok::StarStarSlash => match_at(t, ti + 1, p, pi) || after_sep_match(t, ti, p, pi),
        }
    }
}

/// `*` at `t[ti]` against `p[pi..]`: the rest matches here, or one
/// non-separator is consumed and `*` goes on.
pub open spec fn star_match(t: Seq<Tok>, ti: int, p: Seq<char>, pi: int) -> bool
    decreases t.len() - ti, 0int, p.len() - pi,
{
    0 <= ti < t.len() && (match_at(t, ti + 1, p, pi) || (0 <= pi < p.len() && p[pi] != '/'
        && star_match(t, ti, p, pi + 1)))
}

/// `**` at `t[ti]` against `p[pi..]`: the rest matches here, or one character
/// is consumed and `**` goes on.
pub open spec fn star_star_match(t: Seq<Tok>, ti: int, p: Seq<char>, pi: int) -> bool
    decreases t.len() - ti, 0int, p.len() - pi,
{
    0 <= ti < t.len() && (match_at(t, ti + 1, p, pi) || (0 <= pi < p.len() && star_star_match(
        t,
        ti,
        p,
        pi + 1,
    )))
}

/// `**/` at `t[ti]`, past its empty case: some separator at or after `pi` is
/// followed by a match of the rest.
pub open spec fn after_sep_match(t: Seq<Tok>, ti: int, p: Seq<char>, pi: int) -> bool
    decreases t.len() - ti, 0int, p.len() - pi,
{
    0 <= ti < t.len() && 0 <= pi < p.len() && ((p[pi] == '/' && match_at(t, ti + 1, p, pi + 1))
        || after_sep_match(t, ti, p, pi + 1))
}

/// Whether the pattern text `pat` matches the whole of `path`.
pub open spec fn glob_matches(pat: Seq<char>, path: Seq<char>) -> bool {
    match_at(tokenize(pat), 0, path, 0)
}

/// A compiled glob pattern.
pub struct Pattern {
    source: String,
    toks: Vec<Tok>,
}

impl View for Pattern {
    type V = Seq<char>;

    /// A pattern is modelled by its source text.
    closed spec fn view(&self) -> Seq<char> {
        self.source@
    }
}

impl Pattern {
    #[verifier::type_invariant]
    closed spec fn compiled(&self) -> bool {
        self.toks@ == tokenize(self.source@)
    }

    pub fn new(source: &str) -> (p: Self)
        ensures
            p@ == source@,
    {
        let chars = chars_of(source);
        let n = chars.len();
        let mut toks: Vec<Tok> = Vec::new();
        let mut i: usize = 0;
        while i < n
            invariant
                n == chars@.len(),
                i <= n,
                tokenize(chars@) == toks@ + tokenize_from(chars@, i as int),
            decreases n - i,
        {
            let (t, next) = next_token(&chars, i);
            proof {
                assert(toks@.push(t) + tokenize_from(chars@, next as int)
                    =~= toks@ + tokenize_from(chars@, i as int));
            }
            toks.push(t);
            i = next;
        }
        assert(toks@ + tokenize_from(chars@, i as int) =~= toks@);
        Pattern { source: source.to_string(), toks }
    }

    /// The pattern text.
    pub fn source(&self) -> (r: &str)
        ensures
            r@ == self@,
    {
        self.source.as_str()
    }

    /// Whether this pattern matches the whole of `path`.
    pub fn matches(&self, path: &str) -> (r: bool)
        ensures
            r == glob_matches(self@, path@),
    {
        proof {
            use_type_invariant(self);
        }
        let p = chars_of(path);
        match_from(&self.toks, 0, &p, 0)
    }
}

/// The index of the first pattern in `pats[i..]` that matches `path`.
pub open spec fn first_match_from(pats: Seq<Seq<char>>, path: Seq<char>, i: int) -> Option<int>
    decreases pats.len() - i,
{
    if i < 0 || i >= pats.len() {
        None
    } else if glob_matches(pats[i], path) {
        Some(i)
    } else {
        first_match_from(pats, path, i + 1)
    }
}

/// The index of the first pattern in `pats` that matches `path`.
pub open spec fn first_match(pats: Seq<Seq<char>>, path: Seq<char>) -> Option<int> {
    first_match_from(pats, path, 0)
}

/// The string elements of `items`, in order.
pub open spec fn string_items(items: Seq<JsonV>) -> Seq<Seq<char>>
    decreases items.len(),
{
    if items.len() == 0 {
        Seq::empty()
    } else {
        let rest = string_items(items.drop_last());
        match items.last() {
            JsonV::Str(t) => rest.push(t),
            _ => rest,
        }
    }
}

/// An ordered set of patterns; `match_of` reports the first that matched, so
/// violation messages can name the rule that caught them.
pub struct GlobSet {
    pats: Vec<Pattern>,
}

impl View for GlobSet {
    type V = Seq<Seq<char>>;

    /// A set is modelled by its pattern texts, in order.
    closed spec fn view(&self) -> Seq<Seq<char>> {
        Seq::new(self.pats@.len(), |i: int| self.pats@[i]@)
    }
}

impl GlobSet {
    pub fn new(patterns: Vec<String>) -> (g: Self)
        ensures
            g@.len() == patterns@.len(),
            forall|i: int| 0 <= i < patterns@.len() ==> #[trigger] g@[i] == patterns@[i]@,
    {
        let mut pats: Vec<Pattern> = Vec::new();
        let n = patterns.len();
        for i in 0..n
            invariant
                n == patterns@.len(),
                pats@.len() == i,
                forall|j: int| 0 <= j < i ==> #[trigger] pats@[j]@ == patterns@[j]@,
        {
            pats.push(Pattern::new(patterns[i].as_str()));
        }
        GlobSet { pats }
    }

    /// The patterns listed in a JSON array of strings; entries that are not
    /// strings, and anything that is not an array, contribute nothing.
    pub fn from_json(v: Option<&Json>) -> (g: Self)
        ensures
            g@ == match v {
                Some(j) => match j@ {
                    JsonV::Array(items) => string_items(items),
                    _ => Seq::empty(),
                },
                None => Seq::<Seq<char>>::empty(),
            },
    {
        let mut pats: Vec<Pattern> = Vec::new();
        if let Some(j) = v {
            proof {
                lemma_view_json(*j);
            }
            if let Json::Array(items) = j {
                proof {
                    lemma_view_items(items@);
                }
                let ghost iv = view_items(items@);
                let n = items.len();
                for i in 0..n
                    invariant
                        n == items@.len(),
                        iv.len() == n,
                        forall|k: int| 0 <= k < n ==> #[trigger] iv[k] == items@[k]@,
                        Seq::new(pats@.len(), |k: int| pats@[k]@) == string_items(iv.take(i as int)),
                {
                    let ghost before = Seq::new(pats@.len(), |k: int| pats@[k]@);
                    proof {
                        assert(iv.take(i + 1).drop_last() =~= iv.take(i as int));
                        lemma_view_json(items@[i as int]);
                    }
                    if let Json::Str(t) = &items[i] {
                        pats.push(Pattern::new(t.as_str()));
                        proof {
                            assert(Seq::new(pats@.len(), |k: int| pats@[k]@) =~= before.push(t@));
                        }
                    }
                }
                proof {
                    assert(iv.take(n as int) =~= iv);
                }
            }
        }
        proof {
            assert(Seq::new(pats@.len(), |k: int| pats@[k]@) =~= GlobSet { pats }@);
        }
        GlobSet { pats }
    }

    /// The source of the first pattern that matches `rel`, if any.
    pub fn match_of(&self, rel: &str) -> (r: Option<&str>)
        ensures
            match first_match(self@, rel@) {
                Some(i) => r is Some && r->0@ == self@[i],
                None => r is None,
            },
    {
        let n = self.pats.len();
        let mut i: usize = 0;
        while i < n
            invariant
                n == self@.len(),
                i <= n,
                first_match(self@, rel@) == first_match_from(self@, rel@, i as int),
            decreases n - i,
        {
            if self.pats[i].matches(rel) {
                return Some(self.pats[i].source());
            }
            i = i + 1;
        }
        None
    }

    /// Whether any pattern matches `rel`.
    pub fn is_match(&self, rel: &str) -> (r: bool)
        ensures
            r == first_match(self@, rel@) is Some,
    {
        self.match_of(rel).is_some()
    }

    /// The pattern texts, in order.
    pub fn sources(&self) -> (r: Vec<&str>)
        ensures
            r@.len() == self@.len(),
            forall|i: int| 0 <= i < r@.len() ==> #[trigger] r@[i]@ == self@[i],
    {
        let mut out: Vec<&str> = Vec::new();
        let n = self.pats.len();
        for i in 0..n
            invariant
                n == self@.len(),
                out@.len() == i,
                forall|j: int| 0 <= j < i ==> #[trigger] out@[j]@ == self@[j],
        {
            out.push(self.pats[i].source());
        }
        out
    }
}

/// Whether `toks[ti..]` matches `path[pi..]`, trying the split points of
/// each wildcard from the shortest up.
fn match_from(toks: &Vec<Tok>, ti: usize, path: &Vec<char>, pi: usize) -> (r: bool)
    requires
        ti <= toks@.len(),
        pi <= path@.len(),
    ensures
        r == match_at(toks@, ti as int, path@, pi as int),
    decreases toks@.len() - ti,
{
    if ti == toks.len() {
        return pi == path.len();
    }
    proof {
        lemma_match_unfold(toks@, ti as int, path@, pi as int);
    }
    let rest = ti + 1;
    match &toks[ti] {
        Tok::Lit(c) => pi < path.len() && path[pi] == *c && match_from(toks, ti + 1, path, pi + 1),
        Tok::Any => pi < path.len() && path[pi] != '/' && match_from(toks, ti + 1, path, pi + 1),
        Tok::Star => {
            let mut k = pi;
            loop
                invariant
                    ti < toks@.len(),
                    rest == ti + 1,
                    pi <= k <= path@.len(),
                    match_at(toks@, ti as int, path@, pi as int) == star_match(toks@, ti as int, path@, k as int),
                decreases path@.len() - k,
            {
                proof {
                    lemma_star_unfold(toks@, ti as int, path@, k as int);
                }
                if match_from(toks, rest, path, k) {
                    return true;
                }
                if k >= path.len() || path[k] == '/' {
                    return false;
                }
                k = k + 1;
            }
        },
        Tok::StarStar => {
            let mut k = pi;
            loop
                invariant
                    ti < toks@.len(),
                    rest == ti + 1,
                    pi <= k <= path@.len(),
                    match_at(toks@, ti as int, path@, pi as int) == star_star_match(toks@, ti as int, path@, k as int),
                decreases path@.len() - k,
            {
                proof {
                    lemma_star_unfold(toks@, ti as int, path@, k as int);
                }
                if match_from(toks, rest, path, k) {
                    return true;
                }
                if k >= path.len() {
                    return false;
                }
                k = k + 1;
            }
        },
        Tok::StarStarSlash => {
            if match_from(toks, ti + 1, path, pi) {
                return true;
            }
            let mut k = pi;
            loop
                invariant
                    ti < toks@.len(),
                    rest == ti + 1,
                    pi <= k <= path@.len(),
                    match_at(toks@, ti as int, path@, pi as int) == after_sep_match(toks@, ti as int, path@, k as int),
                decreases path@.len() - k,
            {
                proof {
                    lemma_star_unfold(toks@, ti as int, path@, k as int);
                }
                if k >= path.len() {
                    return false;
                }
                if path[k] == '/' && match_from(toks, rest, path, k + 1) {
                    return true;
                }
                k = k + 1;
            }
        },
    }
}

/// The token that starts at `chars[i]`, and where the next one starts.
fn next_token(chars: &Vec<char>, i: usize) -> (r: (Tok, usize))
    requires
        i < chars@.len(),
    ensures
        r.0 == token_at(chars@, i as int),
        r.1 == i + token_width(chars@, i as int),
        r.1 <= chars@.len(),
{
    let n = chars.len();
    let c = chars[i];
    if c == '*' && i + 1 < n && chars[i + 1] == '*' {
        if i + 2 < n && chars[i + 2] == '/' {
            (Tok::StarStarSlash, i + 3)
        } else {
            (Tok::StarStar, i + 2)
        }
    } else if c == '*' {
        (Tok::Star, i + 1)
    } else if c == '?' {
        (Tok::Any, i + 1)
    } else {
        (Tok::Lit(c), i + 1)
    }
}

/// One step of `match_at`, by the kind of the token at `ti`.
proof fn lemma_match_unfold(t: Seq<Tok>, ti: int, p: Seq<char>, pi: int)
    requires
        0 <= ti < t.len(),
    ensures
        t[ti] is Lit ==> match_at(t, ti, p, pi) == (0 <= pi < p.len() && p[pi] == t[ti]->Lit_0
            && match_at(t, ti + 1, p, pi + 1)),
        t[ti] is Any ==> match_at(t, ti, p, pi) == (0 <= pi < p.len() && p[pi] != '/' && match_at(
            t,
            ti + 1,
            p,
            pi + 1,
        )),
        t[ti] is Star ==> match_at(t, ti, p, pi) == star_match(t, ti, p, pi),
        t[ti] is StarStar ==> match_at(t, ti, p, pi) == star_star_match(t, ti, p, pi),
        t[ti] is StarStarSlash ==> match_at(t, ti, p, pi) == (match_at(t, ti + 1, p, pi)
            || after_sep_match(t, ti, p, pi)),
{
}

/// One step of each wildcard's search.
proof fn lemma_star_unfold(t: Seq<Tok>, ti: int, p: Seq<char>, pi: int)
    requires
        0 <= ti < t.len(),
    ensures
        star_match(t, ti, p, pi) == (match_at(t, ti + 1, p, pi) || (0 <= pi < p.len() && p[pi]
            != '/' && star_match(t, ti, p, pi + 1))),
        star_star_match(t, ti, p, pi) == (match_at(t, ti + 1, p, pi) || (0 <= pi < p.len()
            && star_star_match(t, ti, p, pi + 1))),
        after_sep_match(t, ti, p, pi) == (0 <= pi < p.len() && ((p[pi] == '/' && match_at(
            t,
            ti + 1,
            p,
            pi + 1,
        )) || after_sep_match(t, ti, p, pi + 1))),
{
}

/// `*` consumes exactly a run of non-separator characters: it matches at `pi`
/// iff, for some `k`, `p[pi..k]` holds no `/` and the rest of the pattern
/// matches from `k`.
pub proof fn lemma_star_is_a_run_within_a_component(t: Seq<Tok>, ti: int, p: Seq<char>, pi: int)
    requires
        0 <= ti < t.len(),
        0 <= pi <= p.len(),
    ensures
        star_match(t, ti, p, pi) <==> exists|k: int|
            pi <= k <= p.len() && no_sep(p, pi, k) && #[trigger] match_at(t, ti + 1, p, k),
    decreases p.len() - pi,
{
    lemma_star_unfold(t, ti, p, pi);
    if pi < p.len() {
        lemma_star_is_a_run_within_a_component(t, ti, p, pi + 1);
    }
    if star_match(t, ti, p, pi) {
        if match_at(t, ti + 1, p, pi) {
            assert(no_sep(p, pi, pi));
        } else {
            let k = choose|k: int|
                pi + 1 <= k <= p.len() && no_sep(p, pi + 1, k) && #[trigger] match_at(t, ti + 1, p, k);
            assert(no_sep(p, pi, k));
        }
    }
    if exists|k: int| pi <= k <= p.len() && no_sep(p, pi, k) && #[trigger] match_at(t, ti + 1, p, k) {
        let k = choose|k: int| pi <= k <= p.len() && no_sep(p, pi, k) && #[trigger] match_at(t, ti + 1, p, k);
        if k > pi {
            assert(p[pi] != '/');
            assert(no_sep(p, pi + 1, k));
        }
    }
}

/// `**` consumes any run of characters, separators included.
pub proof fn lemma_star_star_is_any_run(t: Seq<Tok>, ti: int, p: Seq<char>, pi: int)
    requires
        0 <= ti < t.len(),
        0 <= pi <= p.len(),
    ensures
        star_star_match(t, ti, p, pi) <==> exists|k: int|
            pi <= k <= p.len() && #[trigger] match_at(t, ti + 1, p, k),
    decreases p.len() - pi,
{
    lemma_star_unfold(t, ti, p, pi);
    if pi < p.len() {
        lemma_star_star_is_any_run(t, ti, p, pi + 1);
    }
    if exists|k: int| pi <= k <= p.len() && #[trigger] match_at(t, ti + 1, p, k) {
        let k = choose|k: int| pi <= k <= p.len() && #[trigger] match_at(t, ti + 1, p, k);
        if k > pi {
            assert(pi + 1 <= k <= p.len() && match_at(t, ti + 1, p, k));
        }
    }
}

/// Past its empty case, `**/` consumes whole components: it matches at `pi`
/// iff some `/` at `k >= pi` is followed by a match of the rest from `k + 1`.
pub proof fn lemma_star_star_slash_is_whole_components(t: Seq<Tok>, ti: int, p: Seq<char>, pi: int)
    requires
        0 <= ti < t.len(),
        0 <= pi <= p.len(),
    ensures
        after_sep_match(t, ti, p, pi) <==> exists|k: int|
            pi <= k < p.len() && p[k] == '/' && #[trigger] match_at(t, ti + 1, p, k + 1),
    decreases p.len() - pi,
{
    lemma_star_unfold(t, ti, p, pi);
    if pi < p.len() {
        lemma_star_star_slash_is_whole_components(t, ti, p, pi + 1);
    }
    if exists|k: int| pi <= k < p.len() && p[k] == '/' && #[trigger] match_at(t, ti + 1, p, k + 1) {
        let k = choose|k: int| pi <= k < p.len() && p[k] == '/' && #[trigger] match_at(t, ti + 1, p, k + 1);
        if k > pi {
            assert(pi + 1 <= k < p.len() && p[k] == '/' && match_at(t, ti + 1, p, k + 1));
        }
    }
}

/// The pattern `**` matches every path.
pub proof fn lemma_double_star_matches_everything(path: Seq<char>)
    ensures
        glob_matches(seq!['*', '*'], path),
{
    let pat = seq!['*', '*'];
    let t = tokenize(pat);
    assert(token_at(pat, 0) == Tok::StarStar);
    assert(tokenize_from(pat, 2) == Seq::<Tok>::empty());
    assert(t =~= seq![Tok::StarStar]);
    lemma_match_unfold(t, 0, path, 0);
    assert(match_at(t, 1, path, path.len() as int));
    lemma_star_star_is_any_run(t, 0, path, 0);
}

/// A pattern with no wildcard character matches exactly the path that is
/// spelled the same.
pub proof fn lemma_literal_pattern_matches_only_itself(pat: Seq<char>, path: Seq<char>)
    requires
        forall|i: int| 0 <= i < pat.len() ==> pat[i] != '*' && pat[i] != '?',
    ensures
        glob_matches(pat, path) <==> path == pat,
{
    lemma_literal_tokens(pat, 0);
    let t = tokenize(pat);
    assert forall|k: int| 0 <= k < t.len() implies #[trigger] t[k] == Tok::Lit(pat[k]) by {
        assert(t[k] == Tok::Lit(pat[0 + k]));
    }
    lemma_literal_match(t, pat, 0, path, 0);
    if glob_matches(pat, path) {
        assert forall|k: int| 0 <= k < pat.len() implies path[k] == pat[k] by {
            assert(path[0 + k] == pat[0 + k]);
        }
        assert(path =~= pat);
    }
    if path == pat {
        assert forall|k: int| 0 <= k < pat.len() - 0 implies #[trigger] path[0 + k] == pat[0 + k] by {}
    }
}

proof fn lemma_literal_tokens(pat: Seq<char>, i: int)
    requires
        forall|j: int| 0 <= j < pat.len() ==> pat[j] != '*' && pat[j] != '?',
        0 <= i <= pat.len(),
    ensures
        tokenize_from(pat, i).len() == pat.len() - i,
        forall|j: int| 0 <= j < pat.len() - i ==> #[trigger] tokenize_from(pat, i)[j] == Tok::Lit(pat[i + j]),
    decreases pat.len() - i,
{
    if i < pat.len() {
        lemma_literal_tokens(pat, i + 1);
        let t = tokenize_from(pat, i);
        let rest = tokenize_from(pat, i + 1);
        lemma_lit_token(pat, i, pat[i]);
        assert forall|j: int| 0 <= j < pat.len() - i implies #[trigger] t[j] == Tok::Lit(pat[i + j]) by {
            if j > 0 {
                assert(t[j] == rest[j - 1]);
                assert(rest[j - 1] == Tok::Lit(pat[i + 1 + (j - 1)]));
            }
        }
    }
}

proof fn lemma_literal_match(t: Seq<Tok>, pat: Seq<char>, j: int, path: Seq<char>, pi: int)
    requires
        t.len() == pat.len(),
        forall|k: int| 0 <= k < t.len() ==> #[trigger] t[k] == Tok::Lit(pat[k]),
        0 <= j <= pat.len(),
        0 <= pi,
    ensures
        match_at(t, j, path, pi) <==> (path.len() - pi == pat.len() - j && forall|k: int|
            0 <= k < pat.len() - j ==> #[trigger] path[pi + k] == pat[j + k]),
    decreases pat.len() - j,
{
    if j < pat.len() {
        lemma_literal_match(t, pat, j + 1, path, pi + 1);
        lemma_match_unfold(t, j, path, pi);
        assert(t[j] == Tok::Lit(pat[j]));
        if match_at(t, j, path, pi) {
            assert forall|k: int| 0 <= k < pat.len() - j implies #[trigger] path[pi + k] == pat[j + k] by {
                if k > 0 {
                    assert(path[(pi + 1) + (k - 1)] == pat[(j + 1) + (k - 1)]);
                }
            }
        }
        if path.len() - pi == pat.len() - j && forall|k: int|
            0 <= k < pat.len() - j ==> #[trigger] path[pi + k] == pat[j + k] {
            assert(path[pi + 0] == pat[j + 0]);
            assert forall|k: int| 0 <= k < pat.len() - (j + 1) implies #[trigger] path[(pi + 1) + k] == pat[(j + 1) + k] by {
                assert(path[pi + (k + 1)] == pat[j + (k + 1)]);
            }
        }
    }
}

proof fn lemma_lit_token(pat: Seq<char>, i: int, c: char)
    requires
        0 <= i < pat.len(),
        pat[i] != '*',
        pat[i] != '?',
        c == pat[i],
    ensures
        tokenize_from(pat, i) == seq![Tok::Lit(c)] + tokenize_from(pat, i + 1),
{
    assert(token_at(pat, i) == Tok::Lit(c));
    assert(token_width(pat, i) == 1);
}

/// Whether `w` is a piece of path that token `tok` can stand for: a literal
/// its own character, `?` one character other than `/`, `*` any text without
/// `/`, `**` any text at all, and `**/` either nothing or text ending in `/`.
pub open spec fn piece_fits(tok: Tok, w: Seq<char>) -> bool {
    match tok {
        Tok::Lit(c) => w == seq![c],
        Tok::Any => w.len() == 1 && w[0] != '/',
        Tok::Star => forall|j: int| 0 <= j < w.len() ==> w[j] != '/',
        Tok::StarStar => true,
        Tok::StarStarSlash => w.len() == 0 || w.last() == '/',
    }
}

/// Whether `ws` gives one fitting piece to each token of `t` from `ti` on.
pub open spec fn pieces_fit(t: Seq<Tok>, ti: int, ws: Seq<Seq<char>>) -> bool {
    &&& ws.len() == t.len() - ti
    &&& forall|i: int| 0 <= i < ws.len() ==> #[trigger] piece_fits(t[ti + i], ws[i])
}

/// Splitting off the first piece.
proof fn lemma_flatten_first(w: Seq<char>, rest: Seq<Seq<char>>)
    ensures
        (seq![w] + rest).flatten() == w + rest.flatten(),
{
    let ws = seq![w] + rest;
    assert(ws.first() == w);
    assert(ws.drop_first() =~= rest);
}

/// A match of `t[ti..]` against `p[pi..]` cuts the path into one fitting
/// piece per token.
proof fn lemma_match_gives_pieces(t: Seq<Tok>, ti: int, p: Seq<char>, pi: int) -> (ws: Seq<Seq<char>>)
    requires
        0 <= ti <= t.len(),
        0 <= pi <= p.len(),
        match_at(t, ti, p, pi),
    ensures
        pieces_fit(t, ti, ws),
        ws.flatten() == p.subrange(pi, p.len() as int),
    decreases t.len() - ti,
{
    if ti == t.len() {
        let ws = Seq::<Seq<char>>::empty();
        assert(p.subrange(pi, p.len() as int) =~= Seq::<char>::empty());
        ws
    } else {
        lemma_match_unfold(t, ti, p, pi);
        let k: int = match t[ti] {
            Tok::Lit(_) => pi + 1,
            Tok::Any => pi + 1,
            Tok::Star => {
                lemma_star_is_a_run_within_a_component(t, ti, p, pi);
                choose|k: int| pi <= k <= p.len() && no_sep(p, pi, k) && #[trigger] match_at(t, ti + 1, p, k)
            },
            Tok::StarStar => {
                lemma_star_star_is_any_run(t, ti, p, pi);
                choose|k: int| pi <= k <= p.len() && #[trigger] match_at(t, ti + 1, p, k)
            },
            Tok::StarStarSlash => if match_at(t, ti + 1, p, pi) {
                pi
            } else {
                lemma_star_star_slash_is_whole_components(t, ti, p, pi);
                let j = choose|j: int| pi <= j < p.len() && p[j] == '/' && #[trigger] match_at(t, ti + 1, p, j + 1);
                j + 1
            },
        };
        assert(pi <= k <= p.len() && match_at(t, ti + 1, p, k));
        let w = p.subrange(pi, k);
        let rest = lemma_match_gives_pieces(t, ti + 1, p, k);
        let ws = seq![w] + rest;
        assert(piece_fits(t[ti], w)) by {
            match t[ti] {
                Tok::Lit(c) => {
                    assert(w =~= seq![c]);
                },
                _ => {},
            }
        }
        assert forall|i: int| 0 <= i < ws.len() implies #[trigger] piece_fits(t[ti + i], ws[i]) by {
            if i > 0 {
                assert(ws[i] == rest[i - 1]);
                assert(piece_fits(t[(ti + 1) + (i - 1)], rest[i - 1]));
            }
        }
        lemma_flatten_first(w, rest);
        assert(w + rest.flatten() =~= p.subrange(pi, p.len() as int));
        ws
    }
}

/// Pieces that fit the tokens `t[ti..]` and spell `p[pi..]` make a match.
proof fn lemma_pieces_give_match(t: Seq<Tok>, ti: int, p: Seq<char>, pi: int, ws: Seq<Seq<char>>)
    requires
        0 <= ti <= t.len(),
        0 <= pi <= p.len(),
        pieces_fit(t, ti, ws),
        ws.flatten() == p.subrange(pi, p.len() as int),
    ensures
        match_at(t, ti, p, pi),
    decreases t.len() - ti,
{
    if ti == t.len() {
        assert(ws.len() == 0);
        assert(p.subrange(pi, p.len() as int).len() == 0);
    } else {
        let w = ws[0];
        let rest = ws.drop_first();
        assert(ws =~= seq![w] + rest);
        lemma_flatten_first(w, rest);
        let k = pi + w.len();
        assert(p.subrange(pi, p.len() as int) == w + rest.flatten());
        assert(k <= p.len());
        assert forall|j: int| 0 <= j < w.len() implies #[trigger] w[j] == p[pi + j] by {
            assert((w + rest.flatten())[j] == p.subrange(pi, p.len() as int)[j]);
        }
        assert(rest.flatten() =~= p.subrange(k, p.len() as int)) by {
            assert forall|j: int| 0 <= j < rest.flatten().len() implies #[trigger] rest.flatten()[j] == p.subrange(k, p.len() as int)[j] by {
                assert((w + rest.flatten())[w.len() + j] == p.subrange(pi, p.len() as int)[w.len() + j]);
            }
        }
        assert forall|i: int| 0 <= i < rest.len() implies #[trigger] piece_fits(t[(ti + 1) + i], rest[i]) by {
            assert(rest[i] == ws[i + 1]);
            assert(piece_fits(t[ti + (i + 1)], ws[i + 1]));
        }
        lemma_pieces_give_match(t, ti + 1, p, k, rest);
        assert(piece_fits(t[ti + 0], ws[0]));
        lemma_match_unfold(t, ti, p, pi);
        match t[ti] {
            Tok::Lit(c) => {
                assert(w[0] == c);
            },
            Tok::Any => {},
            Tok::Star => {
                assert(no_sep(p, pi, k)) by {
                    assert forall|j: int| pi <= j < k implies p[j] != '/' by {
                        assert(w[j - pi] == p[pi + (j - pi)]);
                    }
                }
                lemma_star_is_a_run_within_a_component(t, ti, p, pi);
            },
            Tok::StarStar => {
                lemma_star_star_is_any_run(t, ti, p, pi);
            },
            Tok::StarStarSlash => {
                if w.len() > 0 {
                    assert(w[w.len() - 1] == p[pi + (w.len() - 1)]);
                    assert(p[k - 1] == '/');
                    assert(match_at(t, ti + 1, p, (k - 1) + 1));
                    lemma_star_star_slash_is_whole_components(t, ti, p, pi);
                }
            },
        }
    }
}

/// What a pattern means: it matches a path exactly when the path can be cut
/// into consecutive pieces, one for each token of the pattern read left to
/// right, each piece fitting its token — a literal character itself, `?` one
/// character other than `/`, `*` any text without `/`, `**` any text, `**/`
/// nothing or text ending in `/`.
pub proof fn lemma_glob_pieces(pat: Seq<char>, path: Seq<char>)
    ensures
        glob_matches(pat, path) <==> exists|ws: Seq<Seq<char>>|
            #[trigger] pieces_fit(tokenize(pat), 0, ws) && ws.flatten() == path,
{
    let t = tokenize(pat);
    assert(path.subrange(0, path.len() as int) =~= path);
    if glob_matches(pat, path) {
        let ws = lemma_match_gives_pieces(t, 0, path, 0);
        assert(pieces_fit(t, 0, ws) && ws.flatten() == path);
    }
    if exists|ws: Seq<Seq<char>>| #[trigger] pieces_fit(t, 0, ws) && ws.flatten() == path {
        let ws = choose|ws: Seq<Seq<char>>| #[trigger] pieces_fit(t, 0, ws) && ws.flatten() == path;
        lemma_pieces_give_match(t, 0, path, 0, ws);
    }
}

} // verus!
