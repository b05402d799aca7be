//! Character-level helpers shared by the other modules.

use vstd::prelude::*;

verus! {

/// The characters of `s`, in order.
pub fn chars_of(s: &str) -> (r: Vec<char>)
    ensures
        r@ == s@,
{
    let mut r: Vec<char> = Vec::new();
    for c in it: s.chars()
        invariant
            r@ == it.seq().take(it.index() as int),
    {
        r.push(c);
    }
    r
}

} // verus!

verus! {

/// Position of the first `\n` at or after `i`, or `s.len()` when there is none.
pub open spec fn next_newline(s: Seq<char>, i: int) -> int
    decreases s.len() - i,
{
    if i < 0 || i >= s.len() {
        s.len() as int
    } else if s[i] == '\n' {
        i
    } else {
        next_newline(s, i + 1)
    }
}

pub proof fn lemma_next_newline(s: Seq<char>, i: int)
    requires
        0 <= i <= s.len(),
    ensures
        i <= next_newline(s, i) <= s.len(),
        next_newline(s, i) < s.len() ==> s[next_newline(s, i)] == '\n',
        forall|j: int| i <= j < next_newline(s, i) ==> s[j] != '\n',
    decreases s.len() - i,
{
    if i < s.len() && s[i] != '\n' {
        lemma_next_newline(s, i + 1);
    }
}

/// The line that starts at `i`: up to the next `\n`, without it, and without
/// a `\r` just before it.
pub open spec fn line_at(s: Seq<char>, i: int) -> Seq<char> {
    let e = next_newline(s, i);
    let raw = s.subrange(i, e);
    if e < s.len() && raw.len() > 0 && raw.last() == '\r' {
        raw.drop_last()
    } else {
        raw
    }
}

/// The lines of `s[i..]`, split as `str::lines` splits them: at `\n` or
/// `\r\n`, with the final line ending optional.
pub open spec fn lines_from(s: Seq<char>, i: int) -> Seq<Seq<char>>
    decreases s.len() - i,
{
    if i < 0 || i >= s.len() {
        Seq::empty()
    } else {
        proof {
            lemma_next_newline(s, i);
        }
        if next_newline(s, i) >= s.len() {
            seq![line_at(s, i)]
        } else {
            seq![line_at(s, i)] + lines_from(s, next_newline(s, i) + 1)
        }
    }
}

/// The lines of `s`.
pub open spec fn lines_of(s: Seq<char>) -> Seq<Seq<char>> {
    lines_from(s, 0)
}

/// Whether two character vectors hold the same characters.
pub fn chars_eq(a: &Vec<char>, b: &Vec<char>) -> (r: bool)
    ensures
        r == (a@ == b@),
{
    if a.len() != b.len() {
        return false;
    }
    let n = a.len();
    for i in 0..n
        invariant
            n == a@.len(),
            n == b@.len(),
            forall|j: int| 0 <= j < i ==> a@[j] == b@[j],
    {
        if a[i] != b[i] {
            return false;
        }
    }
    assert(a@ =~= b@);
    true
}

/// The lines of `s`, as `str::lines` gives them.
pub fn lines(s: &Vec<char>) -> (r: Vec<Vec<char>>)
    ensures
        r@.len() == lines_of(s@).len(),
        forall|i: int| 0 <= i < r@.len() ==> #[trigger] r@[i]@ == lines_of(s@)[i],
{
    let n = s.len();
    let mut out: Vec<Vec<char>> = Vec::new();
    let mut i: usize = 0;
    while i < n
        invariant
            n == s@.len(),
            i <= n,
            forall|j: int| 0 <= j < out@.len() ==> #[trigger] out@[j]@ == lines_of(s@)[j],
            lines_of(s@) == Seq::new(out@.len(), |j: int| out@[j]@) + lines_from(s@, i as int),
        decreases n - i,
    {
        proof {
            lemma_next_newline(s@, i as int);
        }
        let mut line: Vec<char> = Vec::new();
        let mut e = i;
        while e < n && s[e] != '\n'
            invariant
                n == s@.len(),
                i <= e <= n,
                next_newline(s@, i as int) == next_newline(s@, e as int),
                line@ == s@.subrange(i as int, e as int),
            decreases n - e,
        {
            line.push(s[e]);
            e = e + 1;
            assert(line@ =~= s@.subrange(i as int, e as int));
        }
        if e < n && line.len() > 0 && line[line.len() - 1] == '\r' {
            line.pop();
        }
        let ghost before = Seq::new(out@.len(), |j: int| out@[j]@);
        proof {
            assert(line@ =~= line_at(s@, i as int));
        }
        out.push(line);
        proof {
            assert(Seq::new(out@.len(), |j: int| out@[j]@) =~= before.push(line_at(s@, i as int)));
        }
        i = if e < n { e + 1 } else { n };
    }
    assert(Seq::new(out@.len(), |j: int| out@[j]@) =~= lines_of(s@));
    out
}

} // verus!

verus! {

/// Whether `c` is an ASCII decimal digit.
pub open spec fn is_digit(c: char) -> bool {
    '0' <= c <= '9'
}

/// The value of the decimal digit `c`.
pub open spec fn digit_value(c: char) -> int {
    c as int - '0' as int
}

/// The digit character for `d` in `0..10`.
pub open spec fn digit_char(d: int) -> char {
    ('0' as int + d) as char
}

/// The value of a string of decimal digits.
pub open spec fn decimal_value(s: Seq<char>) -> int
    decreases s.len(),
{
    if s.len() == 0 {
        0
    } else {
        decimal_value(s.drop_last()) * 10 + digit_value(s.last())
    }
}

/// Whether `s` is a non-empty run of decimal digits.
pub open spec fn is_decimal(s: Seq<char>) -> bool {
    s.len() > 0 && forall|i: int| 0 <= i < s.len() ==> is_digit(#[trigger] s[i])
}

/// The decimal rendering of `n`, without leading zeros.
pub open spec fn decimal(n: nat) -> Seq<char>
    decreases n,
{
    if n < 10 {
        seq![digit_char(n as int)]
    } else {
        decimal(n / 10).push(digit_char((n % 10) as int))
    }
}

/// `n` in decimal, left-padded with zeros to at least `width` characters.
pub open spec fn zero_padded(n: nat, width: nat) -> Seq<char> {
    let d = decimal(n);
    if d.len() >= width {
        d
    } else {
        Seq::new((width - d.len()) as nat, |i: int| '0') + d
    }
}

/// The number a string of decimal digits spells, when it fits in a `u64`.
pub fn parse_u64(s: &Vec<char>) -> (r: Option<u64>)
    ensures
        r == if is_decimal(s@) && decimal_value(s@) <= u64::MAX {
            Some(decimal_value(s@) as u64)
        } else {
            None::<u64>
        },
{
    let n = s.len();
    if n == 0 {
        return None;
    }
    let mut v: u64 = 0;
    let mut i: usize = 0;
    while i < n
        invariant
            n == s@.len(),
            n > 0,
            i <= n,
            forall|j: int| 0 <= j < i ==> is_digit(#[trigger] s@[j]),
            v == decimal_value(s@.take(i as int)),
        decreases n - i,
    {
        let c = s[i];
        proof {
            assert(s@.take(i + 1).drop_last() =~= s@.take(i as int));
        }
        if !('0' <= c && c <= '9') {
            return None;
        }
        let d = (c as u32 - '0' as u32) as u64;
        match v.checked_mul(10) {
            Some(m) => match m.checked_add(d) {
                Some(w) => {
                    v = w;
                },
                None => {
                    proof {
                        lemma_overflow_means_too_big(s@, i as int);
                    }
                    return None;
                },
            },
            None => {
                proof {
                    lemma_overflow_means_too_big(s@, i as int);
                }
                return None;
            },
        }
        i = i + 1;
    }
    proof {
        assert(s@.take(n as int) =~= s@);
    }
    Some(v)
}

proof fn lemma_overflow_means_too_big(s: Seq<char>, i: int)
    requires
        0 <= i < s.len(),
        is_digit(s[i]),
        decimal_value(s.take(i)) * 10 + digit_value(s[i]) > u64::MAX,
    ensures
        !(is_decimal(s) && decimal_value(s) <= u64::MAX),
{
    assert(s.take(i + 1).drop_last() =~= s.take(i));
    if forall|j: int| 0 <= j < s.len() ==> is_digit(#[trigger] s[j]) {
        lemma_decimal_value_grows(s, i + 1);
    }
}

/// Reading further digits never makes the value smaller.
pub proof fn lemma_decimal_value_grows(s: Seq<char>, k: int)
    requires
        0 <= k <= s.len(),
        forall|j: int| 0 <= j < s.len() ==> is_digit(#[trigger] s[j]),
    ensures
        decimal_value(s.take(k)) <= decimal_value(s),
        0 <= decimal_value(s.take(k)),
    decreases s.len() - k,
{
    lemma_decimal_value_nonneg(s.take(k));
    if k < s.len() {
        lemma_decimal_value_grows(s, k + 1);
        assert(s.take(k + 1).drop_last() =~= s.take(k));
        assert(is_digit(s[k]));
    } else {
        assert(s.take(k) =~= s);
    }
}

pub proof fn lemma_decimal_value_nonneg(s: Seq<char>)
    requires
        forall|j: int| 0 <= j < s.len() ==> is_digit(#[trigger] s[j]),
    ensures
        0 <= decimal_value(s),
    decreases s.len(),
{
    if s.len() > 0 {
        lemma_decimal_value_nonneg(s.drop_last());
        assert(is_digit(s[s.len() - 1]));
    }
}

/// The digit character for `d`.
fn digit(d: u64) -> (c: char)
    requires
        d < 10,
    ensures
        c == digit_char(d as int),
{
    ((48u8 + d as u8) as char)
}

/// `n` in decimal.
pub fn decimal_chars(n: u64) -> (r: Vec<char>)
    ensures
        r@ == decimal(n as nat),
    decreases n,
{
    if n < 10 {
        let mut v: Vec<char> = Vec::new();
        v.push(digit(n));
        proof {
            assert(v@ =~= seq![digit_char(n as int)]);
        }
        v
    } else {
        let mut v = decimal_chars(n / 10);
        v.push(digit(n % 10));
        v
    }
}

/// `n` in decimal, left-padded with zeros to at least `width` characters.
pub fn zero_padded_chars(n: u64, width: usize) -> (r: Vec<char>)
    ensures
        r@ == zero_padded(n as nat, width as nat),
{
    let d = decimal_chars(n);
    if d.len() >= width {
        return d;
    }
    let mut out: Vec<char> = Vec::new();
    let pad = width - d.len();
    for i in 0..pad
        invariant
            out@ == Seq::new(i as nat, |k: int| '0'),
    {
        out.push('0');
        proof {
            assert(out@ =~= Seq::new((i + 1) as nat, |k: int| '0'));
        }
    }
    let ghost prefix = out@;
    for i in 0..d.len()
        invariant
            out@ == prefix + d@.take(i as int),
    {
        out.push(d[i]);
        proof {
            assert(out@ =~= prefix + d@.take(i + 1));
        }
    }
    proof {
        assert(d@.take(d@.len() as int) =~= d@);
    }
    out
}

proof fn lemma_digit_char_value(k: int)
    requires
        0 <= k < 10,
    ensures
        digit_value(digit_char(k)) == k,
        is_digit(digit_char(k)),
{
}

/// Reading back the decimal rendering of `n` gives `n`.
pub proof fn lemma_decimal_round_trip(n: nat)
    ensures
        is_decimal(decimal(n)),
        decimal_value(decimal(n)) == n,
    decreases n,
{
    lemma_digit_char_value((n % 10) as int);
    if n < 10 {
        let d = decimal(n);
        assert(d.drop_last() =~= Seq::<char>::empty());
        assert(decimal_value(d) == decimal_value(d.drop_last()) * 10 + digit_value(d.last()));
    } else {
        lemma_decimal_round_trip(n / 10);
        let d = decimal(n);
        assert(n == (n / 10) * 10 + n % 10);
        assert(decimal_value(d) == decimal_value(d.drop_last()) * 10 + digit_value(d.last()));
        assert(d.last() == digit_char((n % 10) as int));
        assert(d.drop_last() =~= decimal(n / 10));
        assert forall|i: int| 0 <= i < d.len() implies is_digit(#[trigger] d[i]) by {
            if i < d.len() - 1 {
                assert(d[i] == decimal(n / 10)[i]);
            }
        }
    }
}

/// The string made of `chars`, in order (`Iterator::collect` into a `String`).
#[verifier::external_body]
pub(crate) fn string_of(chars: &Vec<char>) -> (r: String)
    ensures
        r@ == chars@,
{
    chars.iter().collect()
}

/// The texts of a sequence of strings.
pub open spec fn texts(v: Seq<String>) -> Seq<Seq<char>>
    decreases v.len(),
{
    if v.len() == 0 {
        Seq::empty()
    } else {
        texts(v.drop_last()).push(v.last()@)
    }
}

pub proof fn lemma_texts_push(v: Seq<String>, x: String)
    ensures
        texts(v.push(x)) == texts(v).push(x@),
{
    assert(v.push(x).drop_last() =~= v);
}

pub proof fn lemma_texts(v: Seq<String>)
    ensures
        texts(v).len() == v.len(),
        forall|i: int| 0 <= i < v.len() ==> #[trigger] texts(v)[i] == v[i]@,
    decreases v.len(),
{
    if v.len() > 0 {
        lemma_texts(v.drop_last());
    }
}

/// Appends `s` to the list `out`.
pub fn push_text(out: &mut Vec<String>, s: String)
    ensures
        texts(final(out)@) == texts(old(out)@).push(s@),
{
    let ghost before = out@;
    out.push(s);
    proof {
        lemma_texts_push(before, s);
    }
}

/// Lexicographic order on texts, by character code — the order `str`
/// comparison gives, since UTF-8 preserves code point order.
pub open spec fn lex_lt(a: Seq<char>, b: Seq<char>) -> bool
    decreases a.len(),
{
    if a.len() == 0 {
        b.len() > 0
    } else if b.len() == 0 {
        false
    } else if (a[0] as int) < (b[0] as int) {
        true
    } else if a[0] == b[0] {
        lex_lt(a.drop_first(), b.drop_first())
    } else {
        false
    }
}

pub proof fn lemma_lex_irreflexive(a: Seq<char>)
    ensures
        !lex_lt(a, a),
    decreases a.len(),
{
    if a.len() > 0 {
        lemma_lex_irreflexive(a.drop_first());
    }
}

pub proof fn lemma_lex_transitive(a: Seq<char>, b: Seq<char>, c: Seq<char>)
    requires
        lex_lt(a, b),
        lex_lt(b, c),
    ensures
        lex_lt(a, c),
    decreases a.len(),
{
    if a.len() > 0 && b.len() > 0 && c.len() > 0 && a[0] == b[0] && b[0] == c[0] {
        lemma_lex_transitive(a.drop_first(), b.drop_first(), c.drop_first());
    }
}

pub proof fn lemma_lex_total(a: Seq<char>, b: Seq<char>)
    ensures
        a == b || lex_lt(a, b) || lex_lt(b, a),
    decreases a.len(),
{
    if a.len() > 0 && b.len() > 0 && a[0] == b[0] {
        lemma_lex_total(a.drop_first(), b.drop_first());
        if a.drop_first() == b.drop_first() {
            assert(a =~= seq![a[0]] + a.drop_first());
            assert(b =~= seq![b[0]] + b.drop_first());
        }
    } else if a.len() == 0 && b.len() == 0 {
        assert(a =~= b);
    }
}

pub proof fn lemma_lex_asymmetric(a: Seq<char>, b: Seq<char>)
    requires
        lex_lt(a, b),
    ensures
        !lex_lt(b, a),
{
    if lex_lt(b, a) {
        lemma_lex_transitive(a, b, a);
        lemma_lex_irreflexive(a);
    }
}

/// Whether `a` sorts before `b`.
pub fn lex_less(a: &Vec<char>, b: &Vec<char>) -> (r: bool)
    ensures
        r == lex_lt(a@, b@),
{
    let mut i: usize = 0;
    proof {
        assert(a@.skip(0) =~= a@);
        assert(b@.skip(0) =~= b@);
    }
    while i < a.len() && i < b.len() && a[i] == b[i]
        invariant
            i <= a@.len(),
            i <= b@.len(),
            lex_lt(a@, b@) == lex_lt(a@.skip(i as int), b@.skip(i as int)),
        decreases a@.len() - i,
    {
        proof {
            assert(a@.skip(i as int).drop_first() =~= a@.skip(i + 1));
            assert(b@.skip(i as int).drop_first() =~= b@.skip(i + 1));
        }
        i = i + 1;
    }
    let ghost sa = a@.skip(i as int);
    let ghost sb = b@.skip(i as int);
    proof {
        if i < a.len() {
            assert(sa[0] == a@[i as int]);
        }
        if i < b.len() {
            assert(sb[0] == b@[i as int]);
        }
    }
    if i == a.len() {
        i < b.len()
    } else if i == b.len() {
        false
    } else {
        a[i] < b[i]
    }
}

/// Strictly increasing in lexicographic order.
pub open spec fn strictly_sorted(s: Seq<Seq<char>>) -> bool {
    forall|i: int, j: int| 0 <= i < j < s.len() ==> lex_lt(#[trigger] s[i], #[trigger] s[j])
}

/// The elements of `s` in lexicographic order, each once.
pub open spec fn sorted_distinct(s: Set<Seq<char>>) -> Seq<Seq<char>> {
    choose|r: Seq<Seq<char>>| strictly_sorted(r) && r.to_set() == s
}

/// Two strictly sorted sequences with the same elements are the same.
pub proof fn lemma_sorted_unique(a: Seq<Seq<char>>, b: Seq<Seq<char>>)
    requires
        strictly_sorted(a),
        strictly_sorted(b),
        a.to_set() == b.to_set(),
    ensures
        a == b,
    decreases a.len(),
{
    if a.len() == 0 {
        if b.len() > 0 {
            assert(b.to_set().contains(b[0]));
        }
        assert(a =~= b);
    } else {
        if b.len() == 0 {
            assert(a.to_set().contains(a[0]));
            assert(false);
        }
        // the first elements are both the least element of the set
        assert(b.to_set().contains(a[0]));
        assert(a.to_set().contains(b[0]));
        let ia = choose|i: int| 0 <= i < a.len() && a[i] == b[0];
        let ib = choose|i: int| 0 <= i < b.len() && b[i] == a[0];
        if a[0] != b[0] {
            if ia > 0 {
                assert(lex_lt(a[0], a[ia]));
            }
            if ib > 0 {
                assert(lex_lt(b[0], b[ib]));
            }
            lemma_lex_asymmetric(a[0], b[0]);
        }
        let a1 = a.drop_first();
        let b1 = b.drop_first();
        assert forall|x: Seq<char>| a1.to_set().contains(x) implies b1.to_set().contains(x) by {
            let i = choose|i: int| 0 <= i < a1.len() && a1[i] == x;
            assert(lex_lt(a[0], a[i + 1]));
            assert(b.to_set().contains(x));
            let j = choose|j: int| 0 <= j < b.len() && b[j] == x;
            if j == 0 {
                lemma_lex_irreflexive(x);
            }
            assert(b1[j - 1] == x);
        }
        assert forall|x: Seq<char>| b1.to_set().contains(x) implies a1.to_set().contains(x) by {
            let i = choose|i: int| 0 <= i < b1.len() && b1[i] == x;
            assert(lex_lt(b[0], b[i + 1]));
            assert(a.to_set().contains(x));
            let j = choose|j: int| 0 <= j < a.len() && a[j] == x;
            if j == 0 {
                lemma_lex_irreflexive(x);
            }
            assert(a1[j - 1] == x);
        }
        assert(a1.to_set() =~= b1.to_set());
        lemma_sorted_unique(a1, b1);
        assert(a =~= seq![a[0]] + a1);
        assert(b =~= seq![b[0]] + b1);
    }
}

/// The texts held by a list of character vectors.
pub open spec fn views_of(s: Seq<Vec<char>>) -> Seq<Seq<char>> {
    Seq::new(s.len(), |i: int| s[i]@)
}

/// Adds `x` to the strictly sorted list `s`, unless it is already there.
pub fn insert_sorted(s: &mut Vec<Vec<char>>, x: Vec<char>)
    requires
        strictly_sorted(views_of(old(s)@)),
    ensures
        strictly_sorted(views_of(final(s)@)),
        views_of(final(s)@).to_set() == views_of(old(s)@).to_set().insert(x@),
{
    let ghost before = Seq::new(s@.len(), |i: int| s@[i]@);
    let n = s.len();
    let mut i: usize = 0;
    while i < n && lex_less(&s[i], &x)
        invariant
            n == s@.len(),
            i <= n,
            before == Seq::new(s@.len(), |k: int| s@[k]@),
            forall|k: int| 0 <= k < i ==> lex_lt(#[trigger] before[k], x@),
        decreases n - i,
    {
        i = i + 1;
    }
    if i < n && chars_eq(&s[i], &x) {
        proof {
            assert(before[i as int] == x@);
            assert(before.to_set().contains(x@));
            assert(before.to_set().insert(x@) =~= before.to_set());
        }
        return;
    }
    proof {
        if i < n {
            lemma_lex_total(before[i as int], x@);
        }
    }
    s.insert(i, x);
    proof {
        let after = Seq::new(s@.len(), |k: int| s@[k]@);
        assert(after =~= before.insert(i as int, x@));
        assert forall|p: int, q: int| 0 <= p < q < after.len() implies lex_lt(#[trigger] after[p], #[trigger] after[q]) by {
            if q == i {
            } else if p == i {
                // x sorts before before[i] and so before every later element
                if q > i + 1 {
                    lemma_lex_transitive(x@, before[i as int], before[q - 1]);
                }
            } else if p < i && q > i {
                assert(lex_lt(before[p], before[q - 1]));
            } else if p > i {
                assert(lex_lt(before[p - 1], before[q - 1]));
            }
        }
        assert forall|y: Seq<char>| after.to_set().contains(y) <==> before.to_set().insert(x@).contains(y) by {
            if after.to_set().contains(y) {
                let k = choose|k: int| 0 <= k < after.len() && after[k] == y;
                if k < i {
                    assert(before[k] == y);
                } else if k > i {
                    assert(before[k - 1] == y);
                }
            }
            if before.to_set().contains(y) {
                let k = choose|k: int| 0 <= k < before.len() && before[k] == y;
                if k < i {
                    assert(after[k] == y);
                } else {
                    assert(after[k + 1] == y);
                }
            }
            if y == x@ {
                assert(after[i as int] == y);
            }
        }
        assert(after.to_set() =~= before.to_set().insert(x@));
    }
}

/// `list` joined with `sep` between consecutive elements.
pub open spec fn joined(list: Seq<Seq<char>>, sep: Seq<char>) -> Seq<char>
    decreases list.len(),
{
    if list.len() == 0 {
        Seq::empty()
    } else if list.len() == 1 {
        list[0]
    } else {
        joined(list.drop_last(), sep) + sep + list.last()
    }
}

/// The texts of `list` joined with `sep`.
pub fn join(list: &Vec<String>, sep: &str) -> (r: String)
    ensures
        r@ == joined(texts(list@), sep@),
{
    proof {
        lemma_texts(list@);
    }
    let mut out = String::new();
    let n = list.len();
    for i in 0..n
        invariant
            n == list@.len(),
            texts(list@).len() == n,
            forall|k: int| 0 <= k < n ==> #[trigger] texts(list@)[k] == list@[k]@,
            out@ == joined(texts(list@).take(i as int), sep@),
    {
        proof {
            assert(texts(list@).take(i + 1).drop_last() =~= texts(list@).take(i as int));
            if i == 0 {
                assert(texts(list@).take(1) =~= seq![list@[0]@]);
            }
        }
        if i > 0 {
            out.append(sep);
        }
        out.append(list[i].as_str());
    }
    proof {
        assert(texts(list@).take(n as int) =~= texts(list@));
    }
    out
}

/// Position of the first `c` at or after `i`, or `s.len()` when there is none.
pub open spec fn next_char(s: Seq<char>, c: char, i: int) -> int
    decreases s.len() - i,
{
    if i < 0 || i >= s.len() {
        s.len() as int
    } else if s[i] == c {
        i
    } else {
        next_char(s, c, i + 1)
    }
}

pub proof fn lemma_next_char(s: Seq<char>, c: char, i: int)
    requires
        0 <= i <= s.len(),
    ensures
        i <= next_char(s, c, i) <= s.len(),
        next_char(s, c, i) < s.len() ==> s[next_char(s, c, i)] == c,
        forall|j: int| i <= j < next_char(s, c, i) ==> s[j] != c,
    decreases s.len() - i,
{
    if i < s.len() && s[i] != c {
        lemma_next_char(s, c, i + 1);
    }
}

/// The text of `s` before its first `c` (all of it when there is none).
pub open spec fn before_char(s: Seq<char>, c: char) -> Seq<char> {
    s.take(next_char(s, c, 0))
}

/// The text of `s` before its first `c` (all of it when there is none), as
/// `str::split(c).next()` gives it.
pub fn prefix_before(s: &str, c: char) -> (r: Vec<char>)
    ensures
        r@ == before_char(s@, c),
{
    let cs = chars_of(s);
    let mut out: Vec<char> = Vec::new();
    let mut i: usize = 0;
    proof {
        lemma_next_char(s@, c, 0);
    }
    while i < cs.len() && cs[i] != c
        invariant
            cs@ == s@,
            i <= cs@.len(),
            out@ == s@.take(i as int),
            next_char(s@, c, 0) == next_char(s@, c, i as int),
        decreases cs@.len() - i,
    {
        out.push(cs[i]);
        i = i + 1;
        proof {
            assert(out@ =~= s@.take(i as int));
        }
    }
    out
}

/// Whether `c` has the Unicode `White_Space` property, as
/// `char::is_whitespace` reports.
pub open spec fn white_space(c: char) -> bool {
    let u = c as u32;
    (0x9 <= u <= 0xD) || u == 0x20 || u == 0x85 || u == 0xA0 || u == 0x1680 || (0x2000 <= u <= 0x200A)
        || u == 0x2028 || u == 0x2029 || u == 0x202F || u == 0x205F || u == 0x3000
}

/// Whether `c` has the Unicode `White_Space` property.
pub fn is_white(c: char) -> (r: bool)
    ensures
        r == white_space(c),
{
    let u = c as u32;
    (0x9 <= u && u <= 0xD) || u == 0x20 || u == 0x85 || u == 0xA0 || u == 0x1680 || (0x2000 <= u && u
        <= 0x200A) || u == 0x2028 || u == 0x2029 || u == 0x202F || u == 0x205F || u == 0x3000
}

/// `s` without leading and trailing white space, as `str::trim` gives it.
pub open spec fn trimmed(s: Seq<char>) -> Seq<char> {
    s.subrange(trim_start_index(s), trim_end_index(s))
}

/// Where `s` starts once leading white space is skipped.
#[verifier::opaque]
pub open spec fn trim_start_index(s: Seq<char>) -> int {
    if exists|i: int| 0 <= i < s.len() && !white_space(s[i]) {
        choose|i: int| 0 <= i < s.len() && !white_space(s[i]) && forall|j: int| 0 <= j < i ==> white_space(s[j])
    } else {
        s.len() as int
    }
}

/// Where `s` ends once trailing white space is dropped.
#[verifier::opaque]
pub open spec fn trim_end_index(s: Seq<char>) -> int {
    if exists|i: int| 0 <= i < s.len() && !white_space(s[i]) {
        1 + choose|i: int| 0 <= i < s.len() && !white_space(s[i]) && forall|j: int| i < j < s.len() ==> white_space(s[j])
    } else {
        s.len() as int
    }
}

/// `s` without leading and trailing white space.
pub fn trim(s: &str) -> (r: String)
    ensures
        r@ == trimmed(s@),
{
    let cs = chars_of(s);
    let n = cs.len();
    let mut a: usize = 0;
    while a < n && is_white(cs[a])
        invariant
            cs@ == s@,
            a <= n == s@.len(),
            forall|j: int| 0 <= j < a ==> white_space(s@[j]),
        decreases n - a,
    {
        a = a + 1;
    }
    let mut b: usize = n;
    while b > a && is_white(cs[b - 1])
        invariant
            cs@ == s@,
            a <= b <= n == s@.len(),
            forall|j: int| b <= j < n ==> white_space(s@[j]),
            a < n ==> !white_space(s@[a as int]),
        decreases b,
    {
        b = b - 1;
    }
    proof {
        reveal(trim_start_index);
        reveal(trim_end_index);
        if a < n {
            assert(exists|i: int| 0 <= i < s@.len() && !white_space(s@[i]));
            let i0 = choose|i: int| 0 <= i < s@.len() && !white_space(s@[i]) && forall|j: int| 0 <= j < i ==> white_space(s@[j]);
            assert(0 <= a < s@.len() && !white_space(s@[a as int]) && forall|j: int| 0 <= j < a ==> white_space(s@[j]));
            if i0 < a {
                assert(white_space(s@[i0]));
            }
            if i0 > a {
                assert(white_space(s@[a as int]));
            }
            assert(trim_start_index(s@) == a);
            assert(b > a);
            assert(!white_space(s@[b - 1]));
            let i1 = choose|i: int| 0 <= i < s@.len() && !white_space(s@[i]) && forall|j: int| i < j < s@.len() ==> white_space(s@[j]);
            assert(0 <= b - 1 < s@.len() && !white_space(s@[b - 1]) && forall|j: int| b - 1 < j < s@.len() ==> white_space(s@[j]));
            if i1 < b - 1 {
                assert(white_space(s@[b - 1]));
            }
            if i1 > b - 1 {
                assert(white_space(s@[i1]));
            }
            assert(trim_end_index(s@) == b);
        } else {
            assert(!exists|i: int| 0 <= i < s@.len() && !white_space(s@[i]));
        }
    }
    let mut out: Vec<char> = Vec::new();
    let mut i = a;
    while i < b
        invariant
            cs@ == s@,
            a <= i <= b <= n == s@.len(),
            out@ == s@.subrange(a as int, i as int),
        decreases b - i,
    {
        out.push(cs[i]);
        i = i + 1;
        proof {
            assert(out@ =~= s@.subrange(a as int, i as int));
        }
    }
    string_of(&out)
}

} // verus!
