//! Reading the commands a Markdown document teaches.
//!
//! A document teaches a command when it writes `otogo <verb>` as code: inside a
//! fenced block (backticks or tildes), a four-space or tab-indented block, or
//! an inline code span. Prose mentions do not count. Over-reading is the safe
//! direction: this feeds a guard, and a guard that misses a region fails open.

use vstd::prelude::*;
use crate::text::{chars_of, lines, lines_of, views_of, white_space, is_white, next_char, lemma_next_char, strictly_sorted, insert_sorted, string_of, texts, lemma_texts};

verus! {

/// How many `c` stand one after another from `i` on.
pub open spec fn run_of(s: Seq<char>, c: char, i: int) -> int
    decreases s.len() - i,
{
    if i < 0 || i >= s.len() || s[i] != c {
        0
    } else {
        1 + run_of(s, c, i + 1)
    }
}

pub proof fn lemma_run_of(s: Seq<char>, c: char, i: int)
    requires
        0 <= i <= s.len(),
    ensures
        0 <= run_of(s, c, i) <= s.len() - i,
        forall|k: int| i <= k < i + run_of(s, c, i) ==> s[k] == c,
    decreases s.len() - i,
{
    if i < s.len() && s[i] == c {
        lemma_run_of(s, c, i + 1);
    }
}

/// The fence a line opens or closes, once its leading white space is
/// skipped: three or more backticks, or three or more tildes, with the length
/// of the run.
pub open spec fn fence_of(t: Seq<char>) -> Option<(char, nat)> {
    if run_of(t, '`', 0) >= 3 {
        Some(('`', run_of(t, '`', 0) as nat))
    } else if run_of(t, '~', 0) >= 3 {
        Some(('~', run_of(t, '~', 0) as nat))
    } else {
        None
    }
}

/// A fence as the scanner holds it.
pub open spec fn fence_view(f: Option<(char, usize)>) -> Option<(char, nat)> {
    match f {
        Some((c, n)) => Some((c, n as nat)),
        None => None,
    }
}

/// Whether a line (white space skipped) closes the fence `open`: only a
/// marker of the same character and at least as long does.
pub open spec fn closes(open: (char, nat), t: Seq<char>) -> bool {
    match fence_of(t) {
        Some((fc, fl)) => fc == open.0 && fl >= open.1,
        None => false,
    }
}

/// How many white-space characters stand one after another from `i` on.
pub open spec fn lead_white(s: Seq<char>, i: int) -> int
    decreases s.len() - i,
{
    if i < 0 || i >= s.len() || !white_space(s[i]) {
        0
    } else {
        1 + lead_white(s, i + 1)
    }
}

pub proof fn lemma_lead_white(s: Seq<char>, i: int)
    requires
        0 <= i <= s.len(),
    ensures
        0 <= lead_white(s, i) <= s.len() - i,
    decreases s.len() - i,
{
    if i < s.len() && white_space(s[i]) {
        lemma_lead_white(s, i + 1);
    }
}

/// `s` without its leading white space, as `str::trim_start` gives it.
pub open spec fn skip_white(s: Seq<char>) -> Seq<char> {
    s.skip(lead_white(s, 0))
}

/// Whether a line opens an indented code block: four spaces or a tab.
pub open spec fn indented(l: Seq<char>) -> bool {
    (l.len() >= 4 && l[0] == ' ' && l[1] == ' ' && l[2] == ' ' && l[3] == ' ') || (l.len() >= 1 && l[0] == '\t')
}

/// The inline code spans of a line from `i` on: the text between each pair of
/// backticks. A backtick without a partner opens nothing.
pub open spec fn spans_from(l: Seq<char>, i: int) -> Seq<Seq<char>>
    decreases l.len() - i,
{
    if i < 0 || i >= l.len() {
        Seq::empty()
    } else {
        proof {
            lemma_next_char(l, '`', i);
        }
        let a = next_char(l, '`', i);
        if a >= l.len() {
            Seq::empty()
        } else {
            proof {
                lemma_next_char(l, '`', a + 1);
            }
            let b = next_char(l, '`', a + 1);
            if b >= l.len() {
                Seq::empty()
            } else {
                seq![l.subrange(a + 1, b)] + spans_from(l, b + 1)
            }
        }
    }
}

/// What one line does to the scan: the fence that holds after it, and the
/// code it yields. Inside a fence a line is code unless it closes the fence;
/// outside, a fence marker opens one, an indented line is code, and any other
/// line yields its inline spans.
pub open spec fn step(fence: Option<(char, nat)>, line: Seq<char>) -> (Option<(char, nat)>, Seq<Seq<char>>) {
    let t = skip_white(line);
    match fence {
        Some(f) => if closes(f, t) {
            (None, Seq::empty())
        } else {
            (Some(f), seq![line])
        },
        None => match fence_of(t) {
            Some(m) => (Some(m), Seq::empty()),
            None => if indented(line) {
                (None, seq![line])
            } else {
                (None, spans_from(line, 0))
            },
        },
    }
}

/// The scan of a document's lines: the fence still open at the end, and
/// every line of code, in order.
pub open spec fn scan(ls: Seq<Seq<char>>) -> (Option<(char, nat)>, Seq<Seq<char>>)
    decreases ls.len(),
{
    if ls.len() == 0 {
        (None, Seq::empty())
    } else {
        let prev = scan(ls.drop_last());
        let st = step(prev.0, ls.last());
        (st.0, prev.1 + st.1)
    }
}

/// The code a reader sees in `text`, line by line.
pub open spec fn code_of(text: Seq<char>) -> Seq<Seq<char>> {
    scan(lines_of(text)).1
}

/// Whether a fence is opened in `text` and never closed.
pub open spec fn unclosed(text: Seq<char>) -> bool {
    scan(lines_of(text)).0 is Some
}

/// Position of the first non-white character at or after `i`.
pub open spec fn word_start(s: Seq<char>, i: int) -> int
    decreases s.len() - i,
{
    if i < 0 || i >= s.len() {
        s.len() as int
    } else if white_space(s[i]) {
        word_start(s, i + 1)
    } else {
        i
    }
}

/// Position of the first white character at or after `i`.
pub open spec fn word_end(s: Seq<char>, i: int) -> int
    decreases s.len() - i,
{
    if i < 0 || i >= s.len() {
        s.len() as int
    } else if white_space(s[i]) {
        i
    } else {
        word_end(s, i + 1)
    }
}

pub proof fn lemma_word_start(s: Seq<char>, i: int)
    requires
        0 <= i <= s.len(),
    ensures
        i <= word_start(s, i) <= s.len(),
        word_start(s, i) < s.len() ==> !white_space(s[word_start(s, i)]),
    decreases s.len() - i,
{
    if i < s.len() && white_space(s[i]) {
        lemma_word_start(s, i + 1);
    }
}

pub proof fn lemma_word_end(s: Seq<char>, i: int)
    requires
        0 <= i <= s.len(),
    ensures
        i <= word_end(s, i) <= s.len(),
        word_end(s, i) < s.len() ==> white_space(s[word_end(s, i)]),
    decreases s.len() - i,
{
    if i < s.len() && !white_space(s[i]) {
        lemma_word_end(s, i + 1);
    }
}

/// The white-space separated words of `s` from `i` on, as
/// `str::split_whitespace` gives them.
pub open spec fn words_from(s: Seq<char>, i: int) -> Seq<Seq<char>>
    decreases s.len() - i,
{
    if i < 0 || i >= s.len() {
        Seq::empty()
    } else {
        proof {
            lemma_word_start(s, i);
        }
        let j = word_start(s, i);
        if j >= s.len() {
            Seq::empty()
        } else {
            proof {
                lemma_word_end(s, j + 1);
            }
            let e = word_end(s, j + 1);
            seq![s.subrange(j, e)] + words_from(s, e)
        }
    }
}

/// Whether `c` may stand in a command's name: a lowercase ASCII letter or `-`.
pub open spec fn verb_char(c: char) -> bool {
    ('a' <= c && c <= 'z') || c == '-'
}

/// How many verb characters stand one after another from `i` on.
pub open spec fn verb_len(w: Seq<char>, i: int) -> int
    decreases w.len() - i,
{
    if i < 0 || i >= w.len() || !verb_char(w[i]) {
        0
    } else {
        1 + verb_len(w, i + 1)
    }
}

/// The command a word names: its leading verb characters, up to its first
/// flag character or punctuation.
pub open spec fn verb_of(w: Seq<char>) -> Seq<char> {
    w.take(verb_len(w, 0))
}

/// The verbs a line of words names: each word after an `otogo` word, read up
/// to its flags or punctuation, when anything is left of it.
pub open spec fn line_verbs(ws: Seq<Seq<char>>) -> Seq<Seq<char>>
    decreases ws.len(),
{
    if ws.len() < 2 {
        Seq::empty()
    } else {
        let here = if ws[0] == "otogo"@ && verb_of(ws[1]).len() > 0 {
            seq![verb_of(ws[1])]
        } else {
            Seq::empty()
        };
        here + line_verbs(ws.drop_first())
    }
}

/// The verbs named across lines of code, in order.
pub open spec fn all_verbs(code: Seq<Seq<char>>) -> Seq<Seq<char>>
    decreases code.len(),
{
    if code.len() == 0 {
        Seq::empty()
    } else {
        all_verbs(code.drop_last()) + line_verbs(words_from(code.last(), 0))
    }
}

/// Every command that `text` writes as code.
pub open spec fn invocation_set(text: Seq<char>) -> Set<Seq<char>> {
    all_verbs(code_of(text)).to_set()
}

/// The fence marker that opens the (white-space skipped) line `t`, if any.
pub fn fence_marker(t: &Vec<char>) -> (r: Option<(char, usize)>)
    ensures
        fence_view(r) == fence_of(t@),
{
    let b = run_len(t, '`');
    if b >= 3 {
        return Some(('`', b));
    }
    let w = run_len(t, '~');
    if w >= 3 {
        return Some(('~', w));
    }
    None
}

fn run_len(t: &Vec<char>, c: char) -> (r: usize)
    ensures
        r == run_of(t@, c, 0),
{
    let n = t.len();
    let mut i: usize = 0;
    proof {
        lemma_run_of(t@, c, 0);
    }
    while i < n && t[i] == c
        invariant
            n == t@.len(),
            i <= n,
            run_of(t@, c, 0) == i + run_of(t@, c, i as int),
        decreases n - i,
    {
        i = i + 1;
    }
    i
}

fn skip_leading_white(line: &Vec<char>) -> (r: Vec<char>)
    ensures
        r@ == skip_white(line@),
{
    let n = line.len();
    let mut i: usize = 0;
    proof {
        lemma_lead_white(line@, 0);
    }
    while i < n && is_white(line[i])
        invariant
            n == line@.len(),
            i <= n,
            lead_white(line@, 0) == i + lead_white(line@, i as int),
        decreases n - i,
    {
        i = i + 1;
    }
    let mut out: Vec<char> = Vec::new();
    let mut k = i;
    while k < n
        invariant
            n == line@.len(),
            i <= k <= n,
            lead_white(line@, 0) == i,
            out@ == line@.subrange(i as int, k as int),
        decreases n - k,
    {
        out.push(line[k]);
        k = k + 1;
        proof {
            assert(out@ =~= line@.subrange(i as int, k as int));
        }
    }
    proof {
        assert(line@.skip(i as int) =~= line@.subrange(i as int, n as int));
    }
    out
}

fn is_indented(line: &Vec<char>) -> (r: bool)
    ensures
        r == indented(line@),
{
    (line.len() >= 4 && line[0] == ' ' && line[1] == ' ' && line[2] == ' ' && line[3] == ' ') || (line.len()
        >= 1 && line[0] == '\t')
}

fn find_from(l: &Vec<char>, c: char, i: usize) -> (r: usize)
    requires
        i <= l@.len(),
    ensures
        r == next_char(l@, c, i as int),
{
    let n = l.len();
    let mut k = i;
    proof {
        lemma_next_char(l@, c, i as int);
    }
    while k < n && l[k] != c
        invariant
            n == l@.len(),
            i <= k <= n,
            next_char(l@, c, i as int) == next_char(l@, c, k as int),
        decreases n - k,
    {
        k = k + 1;
    }
    k
}

fn slice_chars(l: &Vec<char>, a: usize, b: usize) -> (r: Vec<char>)
    requires
        a <= b <= l@.len(),
    ensures
        r@ == l@.subrange(a as int, b as int),
{
    let mut out: Vec<char> = Vec::new();
    let mut k = a;
    while k < b
        invariant
            a <= k <= b <= l@.len(),
            out@ == l@.subrange(a as int, k as int),
        decreases b - k,
    {
        out.push(l[k]);
        k = k + 1;
        proof {
            assert(out@ =~= l@.subrange(a as int, k as int));
        }
    }
    out
}

/// Appends the inline code spans of `line` to `out`.
pub fn push_inline_spans(line: &Vec<char>, out: &mut Vec<Vec<char>>)
    ensures
        views_of(final(out)@) == views_of(old(out)@) + spans_from(line@, 0),
{
    let n = line.len();
    let mut i: usize = 0;
    let ghost start = views_of(out@);
    while i < n
        invariant
            n == line@.len(),
            i <= n,
            views_of(out@) + spans_from(line@, i as int) == start + spans_from(line@, 0),
        decreases n - i,
    {
        let a = find_from(line, '`', i);
        proof {
            lemma_next_char(line@, '`', i as int);
        }
        if a >= n {
            proof {
                assert(spans_from(line@, i as int) =~= Seq::<Seq<char>>::empty());
                assert(views_of(out@) + Seq::<Seq<char>>::empty() =~= views_of(out@));
                assert(spans_from(line@, n as int) =~= Seq::<Seq<char>>::empty());
            }
            i = n;
        } else {
            let b = find_from(line, '`', a + 1);
            proof {
                lemma_next_char(line@, '`', a + 1);
            }
            if b >= n {
                proof {
                    assert(spans_from(line@, i as int) =~= Seq::<Seq<char>>::empty());
                    assert(views_of(out@) + Seq::<Seq<char>>::empty() =~= views_of(out@));
                    assert(spans_from(line@, n as int) =~= Seq::<Seq<char>>::empty());
                }
                i = n;
            } else {
                let span = slice_chars(line, a + 1, b);
                let ghost before = views_of(out@);
                out.push(span);
                proof {
                    assert(views_of(out@) =~= before.push(line@.subrange(a + 1, b as int)));
                    assert(spans_from(line@, i as int) == seq![line@.subrange(a + 1, b as int)] + spans_from(
                        line@,
                        b + 1,
                    ));
                    assert(before + spans_from(line@, i as int) =~= views_of(out@) + spans_from(
                        line@,
                        b + 1,
                    ));
                }
                i = b + 1;
            }
        }
    }
    proof {
        assert(spans_from(line@, n as int) =~= Seq::<Seq<char>>::empty());
        assert(views_of(out@) + Seq::<Seq<char>>::empty() =~= views_of(out@));
    }
}

/// One line of the scan: returns the fence that holds after `line` and
/// appends the code it yields to `code`.
fn scan_line(fence: Option<(char, usize)>, line: &Vec<char>, code: &mut Vec<Vec<char>>) -> (r: Option<(char, usize)>)
    ensures
        fence_view(r) == step(fence_view(fence), line@).0,
        views_of(final(code)@) == views_of(old(code)@) + step(fence_view(fence), line@).1,
{
    let t = skip_leading_white(line);
    let m = fence_marker(&t);
    let ghost before = views_of(code@);
    match fence {
        Some((c, n)) => {
            let close = match m {
                Some((fc, fl)) => fc == c && fl >= n,
                None => false,
            };
            if close {
                proof {
                    assert(views_of(code@) + Seq::<Seq<char>>::empty() =~= views_of(code@));
                }
                None
            } else {
                code.push(line.clone());
                proof {
                    assert(views_of(code@) =~= before + seq![line@]);
                }
                fence
            }
        },
        None => match m {
            Some(x) => {
                proof {
                    assert(views_of(code@) + Seq::<Seq<char>>::empty() =~= views_of(code@));
                }
                Some(x)
            },
            None => {
                if is_indented(line) {
                    code.push(line.clone());
                    proof {
                        assert(views_of(code@) =~= before + seq![line@]);
                    }
                } else {
                    push_inline_spans(line, code);
                }
                None
            },
        },
    }
}

/// The scan of a document: the fence still open at its end, and its lines of
/// code.
fn scan_text(text: &str) -> (r: (Option<(char, usize)>, Vec<Vec<char>>))
    ensures
        (fence_view(r.0), views_of(r.1@)) == scan(lines_of(text@)),
{
    let cs = chars_of(text);
    let ls = lines(&cs);
    let ghost lv = lines_of(text@);
    let mut fence: Option<(char, usize)> = None;
    let mut code: Vec<Vec<char>> = Vec::new();
    let n = ls.len();
    proof {
        assert(lv.take(0) =~= Seq::<Seq<char>>::empty());
        assert(views_of(code@) =~= Seq::<Seq<char>>::empty());
    }
    for i in 0..n
        invariant
            n == ls@.len(),
            n == lv.len(),
            lv == lines_of(text@),
            forall|k: int| 0 <= k < n ==> #[trigger] ls@[k]@ == lv[k],
            (fence_view(fence), views_of(code@)) == scan(lv.take(i as int)),
    {
        proof {
            assert(lv.take(i + 1).drop_last() =~= lv.take(i as int));
            assert(lv.take(i + 1).last() == ls@[i as int]@);
        }
        fence = scan_line(fence, &ls[i], &mut code);
    }
    proof {
        assert(lv.take(n as int) =~= lv);
    }
    (fence, code)
}

/// Whether `text` opens a fence and never closes it. Reported on its own:
/// an unclosed fence turns the rest of the document into code, and the
/// resulting unknown command would name a word of the prose instead of the
/// actual defect.
pub fn has_unclosed_fence(text: &str) -> (r: bool)
    ensures
        r == unclosed(text@),
{
    let (fence, _code) = scan_text(text);
    fence.is_some()
}

/// Every line a reader sees as code in `text`: fenced blocks (an unclosed
/// fence runs to the end), indented blocks, and inline spans, in order.
pub fn code_lines(text: &str) -> (r: Vec<String>)
    ensures
        texts(r@) == code_of(text@),
{
    let (_fence, code) = scan_text(text);
    let mut out: Vec<String> = Vec::new();
    let n = code.len();
    for i in 0..n
        invariant
            n == code@.len(),
            views_of(code@) == code_of(text@),
            texts(out@) == views_of(code@).take(i as int),
    {
        let s = string_of(&code[i]);
        let ghost before = out@;
        out.push(s);
        proof {
            lemma_texts(out@);
            lemma_texts(before);
            assert(texts(out@) =~= views_of(code@).take(i + 1));
        }
    }
    proof {
        assert(views_of(code@).take(n as int) =~= views_of(code@));
    }
    out
}

/// The words of a line, as `str::split_whitespace` gives them.
fn words(s: &Vec<char>) -> (r: Vec<Vec<char>>)
    ensures
        views_of(r@) == words_from(s@, 0),
{
    let n = s.len();
    let mut out: Vec<Vec<char>> = Vec::new();
    let mut i: usize = 0;
    while i < n
        invariant
            n == s@.len(),
            i <= n,
            views_of(out@) + words_from(s@, i as int) == words_from(s@, 0),
        decreases n - i,
    {
        let mut j = i;
        proof {
            lemma_word_start(s@, i as int);
        }
        while j < n && is_white(s[j])
            invariant
                n == s@.len(),
                i <= j <= n,
                word_start(s@, i as int) == word_start(s@, j as int),
            decreases n - j,
        {
            j = j + 1;
        }
        if j >= n {
            proof {
                assert(words_from(s@, i as int) =~= Seq::<Seq<char>>::empty());
                assert(words_from(s@, n as int) =~= Seq::<Seq<char>>::empty());
                assert(views_of(out@) + Seq::<Seq<char>>::empty() =~= views_of(out@));
            }
            i = n;
        } else {
            let mut e = j + 1;
            proof {
                lemma_word_end(s@, j + 1);
            }
            while e < n && !is_white(s[e])
                invariant
                    n == s@.len(),
                    j < e <= n,
                    word_end(s@, (j + 1) as int) == word_end(s@, e as int),
                decreases n - e,
            {
                e = e + 1;
            }
            let w = slice_chars(s, j, e);
            let ghost before = views_of(out@);
            out.push(w);
            proof {
                assert(views_of(out@) =~= before.push(s@.subrange(j as int, e as int)));
                assert(words_from(s@, i as int) == seq![s@.subrange(j as int, e as int)] + words_from(s@, e as int));
                assert(before + words_from(s@, i as int) =~= views_of(out@) + words_from(s@, e as int));
            }
            i = e;
        }
    }
    proof {
        assert(words_from(s@, n as int) =~= Seq::<Seq<char>>::empty());
        assert(views_of(out@) + Seq::<Seq<char>>::empty() =~= views_of(out@));
    }
    out
}

/// The command a word names: its leading lowercase letters and hyphens.
fn verb(w: &Vec<char>) -> (r: Vec<char>)
    ensures
        r@ == verb_of(w@),
{
    let n = w.len();
    let mut out: Vec<char> = Vec::new();
    let mut i: usize = 0;
    while i < n && (('a' <= w[i] && w[i] <= 'z') || w[i] == '-')
        invariant
            n == w@.len(),
            i <= n,
            out@ == w@.take(i as int),
            verb_len(w@, 0) == i + verb_len(w@, i as int),
        decreases n - i,
    {
        out.push(w[i]);
        i = i + 1;
        proof {
            assert(out@ =~= w@.take(i as int));
        }
    }
    proof {
        assert(verb_len(w@, i as int) == 0);
    }
    out
}

fn is_otogo(w: &Vec<char>) -> (r: bool)
    ensures
        r == (w@ == "otogo"@),
{
    proof {
        reveal_strlit("otogo");
    }
    let r = w.len() == 5 && w[0] == 'o' && w[1] == 't' && w[2] == 'o' && w[3] == 'g' && w[4] == 'o';
    proof {
        if r {
            assert(w@ =~= "otogo"@);
        }
    }
    r
}

pub proof fn lemma_line_verbs_split(ws: Seq<Seq<char>>, j: int)
    requires
        0 <= j,
        j + 2 <= ws.len(),
    ensures
        line_verbs(ws.take(j + 2)) == line_verbs(ws.take(j + 1)) + (if ws[j] == "otogo"@ && verb_of(ws[j + 1]).len() > 0 {
            seq![verb_of(ws[j + 1])]
        } else {
            Seq::empty()
        }),
    decreases j,
{
    let here = if ws[0] == "otogo"@ && verb_of(ws[1]).len() > 0 {
        seq![verb_of(ws[1])]
    } else {
        Seq::<Seq<char>>::empty()
    };
    if j == 0 {
        assert(ws.take(2).drop_first().len() == 1);
        assert(line_verbs(ws.take(2).drop_first()) =~= Seq::<Seq<char>>::empty());
        assert(line_verbs(ws.take(1)) =~= Seq::<Seq<char>>::empty());
        assert(line_verbs(ws.take(2)) =~= here);
    } else {
        let rest = ws.drop_first();
        lemma_line_verbs_split(rest, j - 1);
        assert(ws.take(j + 2).drop_first() =~= rest.take(j + 1));
        assert(ws.take(j + 1).drop_first() =~= rest.take(j));
        assert(ws.take(j + 2)[0] == ws[0] && ws.take(j + 2)[1] == ws[1]);
        assert(ws.take(j + 1)[0] == ws[0] && ws.take(j + 1)[1] == ws[1]);
        assert(rest[j - 1] == ws[j] && rest[j] == ws[j + 1]);
    }
}

/// Adds the verbs of one line of code to the sorted set `found`.
fn add_line_verbs(line: &Vec<char>, found: &mut Vec<Vec<char>>)
    requires
        strictly_sorted(views_of(old(found)@)),
    ensures
        strictly_sorted(views_of(final(found)@)),
        views_of(final(found)@).to_set() == views_of(old(found)@).to_set() + line_verbs(words_from(line@, 0)).to_set(),
{
    let ws = words(line);
    let ghost wv = views_of(ws@);
    let ghost start = views_of(found@).to_set();
    let n = ws.len();
    if n < 2 {
        proof {
            assert(line_verbs(wv) =~= Seq::<Seq<char>>::empty());
            assert(start + Seq::<Seq<char>>::empty().to_set() =~= start);
        }
        return;
    }
    proof {
        assert(line_verbs(wv.take(1)) =~= Seq::<Seq<char>>::empty());
        assert(start + Seq::<Seq<char>>::empty().to_set() =~= start);
    }
    let mut j: usize = 0;
    while j + 1 < n
        invariant
            n == ws@.len(),
            wv == views_of(ws@),
            wv == words_from(line@, 0),
            n >= 2,
            j + 1 <= n,
            strictly_sorted(views_of(found@)),
            views_of(found@).to_set() == start + line_verbs(wv.take(j + 1)).to_set(),
        decreases n - j,
    {
        proof {
            lemma_line_verbs_split(wv, j as int);
        }
        if is_otogo(&ws[j]) {
            let v = verb(&ws[j + 1]);
            if v.len() > 0 {
                let ghost vv = v@;
                insert_sorted(found, v);
                proof {
                    assert(line_verbs(wv.take(j + 2)) == line_verbs(wv.take(j + 1)) + seq![vv]);
                    lemma_to_set_concat(line_verbs(wv.take(j + 1)), seq![vv]);
                    assert(seq![vv].to_set() =~= Set::<Seq<char>>::empty().insert(vv)) by {
                        assert(seq![vv][0] == vv);
                    }
                    assert(line_verbs(wv.take(j + 2)).to_set() =~= line_verbs(wv.take(j + 1)).to_set().insert(vv));
                    assert(views_of(found@).to_set() =~= start + line_verbs(wv.take(j + 2)).to_set());
                }
            } else {
                proof {
                    assert(line_verbs(wv.take(j + 2)) =~= line_verbs(wv.take(j + 1)));
                }
            }
        } else {
            proof {
                assert(line_verbs(wv.take(j + 2)) =~= line_verbs(wv.take(j + 1)));
            }
        }
        j = j + 1;
    }
    proof {
        assert(wv.take(n as int) =~= wv);
    }
}

/// Every `otogo <verb>` that `text` writes as code, each once, in
/// lexicographic order; prose mentions are not read.
pub fn invocations(text: &str) -> (r: Vec<String>)
    ensures
        strictly_sorted(texts(r@)),
        texts(r@).to_set() == invocation_set(text@),
{
    let (_fence, code) = scan_text(text);
    let ghost cv = views_of(code@);
    let mut found: Vec<Vec<char>> = Vec::new();
    let n = code.len();
    proof {
        assert(views_of(found@) =~= Seq::<Seq<char>>::empty());
        assert(all_verbs(cv.take(0)) =~= Seq::<Seq<char>>::empty());
        assert(views_of(found@).to_set() =~= all_verbs(cv.take(0)).to_set());
    }
    for i in 0..n
        invariant
            n == code@.len(),
            cv == views_of(code@),
            cv == code_of(text@),
            strictly_sorted(views_of(found@)),
            views_of(found@).to_set() == all_verbs(cv.take(i as int)).to_set(),
    {
        add_line_verbs(&code[i], &mut found);
        proof {
            assert(cv.take(i + 1).drop_last() =~= cv.take(i as int));
            assert(cv.take(i + 1).last() == code@[i as int]@);
            lemma_to_set_concat(all_verbs(cv.take(i as int)), line_verbs(words_from(code@[i as int]@, 0)));
        }
    }
    proof {
        assert(cv.take(n as int) =~= cv);
    }
    let mut out: Vec<String> = Vec::new();
    let m = found.len();
    for i in 0..m
        invariant
            m == found@.len(),
            texts(out@) == views_of(found@).take(i as int),
    {
        let s = string_of(&found[i]);
        let ghost before = out@;
        out.push(s);
        proof {
            lemma_texts(out@);
            lemma_texts(before);
            assert(texts(out@) =~= views_of(found@).take(i + 1));
        }
    }
    proof {
        assert(views_of(found@).take(m as int) =~= views_of(found@));
    }
    out
}

/// The elements of a concatenation are those of its parts.
pub proof fn lemma_to_set_concat(a: Seq<Seq<char>>, b: Seq<Seq<char>>)
    ensures
        (a + b).to_set() == a.to_set() + b.to_set(),
{
    assert forall|x: Seq<char>| (a + b).to_set().contains(x) implies (a.to_set() + b.to_set()).contains(x) by {
        let k = choose|k: int| 0 <= k < (a + b).len() && (a + b)[k] == x;
        if k < a.len() {
            assert(a[k] == x);
        } else {
            assert(b[k - a.len()] == x);
        }
    }
    assert forall|x: Seq<char>| (a.to_set() + b.to_set()).contains(x) implies (a + b).to_set().contains(x) by {
        if a.to_set().contains(x) {
            let k = choose|k: int| 0 <= k < a.len() && a[k] == x;
            assert((a + b)[k] == x);
        } else {
            let k = choose|k: int| 0 <= k < b.len() && b[k] == x;
            assert((a + b)[k + a.len()] == x);
        }
    }
    assert((a + b).to_set() =~= a.to_set() + b.to_set());
}


proof fn lemma_lines_from_avoid(s: Seq<char>, c: char, i: int)
    requires
        0 <= i,
        forall|p: int| 0 <= p < s.len() ==> s[p] != c,
    ensures
        forall|k: int, j: int| 0 <= k < crate::text::lines_from(s, i).len() && 0 <= j < crate::text::lines_from(s, i)[k].len()
            ==> crate::text::lines_from(s, i)[k][j] != c,
    decreases s.len() - i,
{
    if i < s.len() {
        crate::text::lemma_next_newline(s, i);
        let e = crate::text::next_newline(s, i);
        let l = crate::text::line_at(s, i);
        assert forall|j: int| 0 <= j < l.len() implies l[j] != c by {
            assert(l[j] == s[i + j]);
        }
        if e < s.len() {
            lemma_lines_from_avoid(s, c, e + 1);
            let rest = crate::text::lines_from(s, e + 1);
            assert(crate::text::lines_from(s, i) == seq![l] + rest);
            assert forall|k: int, j: int| 0 <= k < crate::text::lines_from(s, i).len() && 0 <= j
                < crate::text::lines_from(s, i)[k].len() implies crate::text::lines_from(s, i)[k][j] != c by {
                if k > 0 {
                    assert(crate::text::lines_from(s, i)[k] == rest[k - 1]);
                }
            }
        } else {
            assert(crate::text::lines_from(s, i) == seq![l]);
        }
    }
}

proof fn lemma_no_backtick_no_spans(l: Seq<char>)
    requires
        forall|j: int| 0 <= j < l.len() ==> l[j] != '`',
    ensures
        spans_from(l, 0) == Seq::<Seq<char>>::empty(),
{
    if l.len() > 0 {
        lemma_next_char(l, '`', 0);
        if next_char(l, '`', 0) < l.len() {
            assert(l[next_char(l, '`', 0)] == '`');
        }
    }
}

proof fn lemma_scan_finds_nothing(ls: Seq<Seq<char>>)
    requires
        forall|k: int, j: int| 0 <= k < ls.len() && 0 <= j < ls[k].len() ==> ls[k][j] != '`' && ls[k][j] != '~',
        forall|k: int| 0 <= k < ls.len() ==> !indented(#[trigger] ls[k]),
    ensures
        scan(ls) == (None::<(char, nat)>, Seq::<Seq<char>>::empty()),
    decreases ls.len(),
{
    if ls.len() > 0 {
        let rest = ls.drop_last();
        assert forall|k: int, j: int| 0 <= k < rest.len() && 0 <= j < rest[k].len() implies rest[k][j] != '`' && rest[k][j]
            != '~' by {
            assert(rest[k] == ls[k]);
        }
        assert forall|k: int| 0 <= k < rest.len() implies !indented(#[trigger] rest[k]) by {
            assert(rest[k] == ls[k]);
        }
        lemma_scan_finds_nothing(rest);
        let l = ls.last();
        assert(!indented(l));
        assert forall|j: int| 0 <= j < l.len() implies l[j] != '`' && l[j] != '~' by {
            assert(l[j] == ls[ls.len() - 1][j]);
        }
        lemma_lead_white(l, 0);
        let t = skip_white(l);
        if t.len() > 0 {
            assert(t[0] == l[lead_white(l, 0)]);
        }
        assert(run_of(t, '`', 0) == 0);
        assert(run_of(t, '~', 0) == 0);
        assert(fence_of(t) is None);
        lemma_no_backtick_no_spans(l);
        assert(Seq::<Seq<char>>::empty() + Seq::<Seq<char>>::empty() =~= Seq::<Seq<char>>::empty());
    }
}

/// Prose is not code: a document with no backtick, no tilde, and no line
/// indented as a code block teaches no command, whatever its words say.
pub proof fn lemma_prose_teaches_nothing(text: Seq<char>)
    requires
        forall|i: int| 0 <= i < text.len() ==> text[i] != '`' && text[i] != '~',
        forall|k: int| 0 <= k < lines_of(text).len() ==> !indented(#[trigger] lines_of(text)[k]),
    ensures
        code_of(text) == Seq::<Seq<char>>::empty(),
        invocation_set(text) == Set::<Seq<char>>::empty(),
{
    lemma_lines_from_avoid(text, '`', 0);
    lemma_lines_from_avoid(text, '~', 0);
    lemma_scan_finds_nothing(lines_of(text));
    assert(all_verbs(Seq::<Seq<char>>::empty()) == Seq::<Seq<char>>::empty());
    assert(Seq::<Seq<char>>::empty().to_set() =~= Set::<Seq<char>>::empty());
}

} // verus!
