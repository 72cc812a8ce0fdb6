//! Character-level text operations, each specified by the `str` operation it performs.
use vstd::prelude::*;

verus! {

/// Rust's `char::is_whitespace`: the Unicode `White_Space` property.
pub open spec fn is_ws(c: char) -> bool {
    let u = c as u32;
    ||| u == 0x20
    ||| 0x09 <= u <= 0x0d
    ||| u == 0x85
    ||| u == 0xa0
    ||| u == 0x1680
    ||| 0x2000 <= u <= 0x200a
    ||| u == 0x2028
    ||| u == 0x2029
    ||| u == 0x202f
    ||| u == 0x205f
    ||| u == 0x3000
}

/// The pieces of `s` between occurrences of `sep` (as `str::split` with a char):
/// one more piece than there are separators, empty pieces included.
pub open spec fn split(s: Seq<char>, sep: char) -> Seq<Seq<char>>
    decreases s.len(),
{
    if s.len() == 0 {
        seq![Seq::empty()]
    } else {
        let p = split(s.drop_last(), sep);
        if s.last() == sep {
            p.push(Seq::empty())
        } else {
            p.update(p.len() - 1, p.last().push(s.last()))
        }
    }
}

/// The characters of `s`, one element per Unicode scalar value.
pub fn chars_of(s: &str) -> (v: Vec<char>)
    ensures
        v@ == s@,
{
    let mut v: Vec<char> = Vec::new();
    for c in it: s.chars()
        invariant
            v@ == it.seq().take(it.index()),
    {
        v.push(c);
    }
    v
}

/// The text that a span `(start, end)` of `v` covers.
pub open spec fn span_view(v: Seq<char>, sp: (usize, usize)) -> Seq<char> {
    v.subrange(sp.0 as int, sp.1 as int)
}

/// Every span lies within `a..b`.
pub open spec fn spans_within(spans: Seq<(usize, usize)>, a: int, b: int) -> bool {
    forall|i: int| 0 <= i < spans.len() ==> a <= #[trigger] spans[i].0 <= spans[i].1 <= b
}

/// The texts that the spans of `v` cover.
pub open spec fn spans_view(v: Seq<char>, spans: Seq<(usize, usize)>) -> Seq<Seq<char>> {
    Seq::new(spans.len(), |i: int| span_view(v, spans[i]))
}

pub proof fn lemma_split_nonempty(s: Seq<char>, sep: char)
    ensures
        split(s, sep).len() >= 1,
    decreases s.len(),
{
    if s.len() > 0 {
        lemma_split_nonempty(s.drop_last(), sep);
    }
}

/// Spans of the pieces of `v[a..b]` split at `sep`.
pub fn split_spans(v: &Vec<char>, a: usize, b: usize, sep: char) -> (spans: Vec<(usize, usize)>)
    requires
        a <= b <= v.len(),
    ensures
        spans_within(spans@, a as int, b as int),
        spans_view(v@, spans@) == split(v@.subrange(a as int, b as int), sep),
{
    let mut spans: Vec<(usize, usize)> = Vec::new();
    let mut start = a;
    let mut i = a;
    assert(v@.subrange(a as int, a as int) =~= Seq::<char>::empty());
    assert(spans_view(v@, spans@).push(v@.subrange(start as int, i as int)) =~~= split(
        v@.subrange(a as int, i as int),
        sep,
    ));
    while i < b
        invariant
            a <= start <= i <= b <= v.len(),
            spans_within(spans@, a as int, i as int),
            spans_view(v@, spans@).push(v@.subrange(start as int, i as int)) == split(
                v@.subrange(a as int, i as int),
                sep,
            ),
        decreases b - i,
    {
        let ghost prev = v@.subrange(a as int, i as int);
        assert(v@.subrange(a as int, i + 1).drop_last() == prev);
        proof {
            lemma_split_nonempty(prev, sep);
        }
        if v[i] == sep {
            spans.push((start, i));
            start = i + 1;
            assert(v@.subrange(start as int, i + 1) == Seq::<char>::empty());
        } else {
            assert(v@.subrange(start as int, i + 1) == v@.subrange(start as int, i as int).push(v@[i as int]));
        }
        assert(spans_within(spans@, a as int, i + 1));
        i = i + 1;
        assert(spans_view(v@, spans@).push(v@.subrange(start as int, i as int)) =~= split(
            v@.subrange(a as int, i as int),
            sep,
        ));
    }
    spans.push((start, b));
    assert(spans_view(v@, spans@) =~= split(v@.subrange(a as int, b as int), sep));
    spans
}

/// `char::is_whitespace`.
pub fn is_whitespace(c: char) -> (b: bool)
    ensures
        b == is_ws(c),
{
    let u = c as u32;
    u == 0x20 || (0x09 <= u && u <= 0x0d) || u == 0x85 || u == 0xa0 || u == 0x1680 || (0x2000
        <= u && u <= 0x200a) || u == 0x2028 || u == 0x2029 || u == 0x202f || u == 0x205f || u
        == 0x3000
}

/// `s` without its leading whitespace (`str::trim_start`).
pub open spec fn trim_start(s: Seq<char>) -> Seq<char>
    decreases s.len(),
{
    if s.len() > 0 && is_ws(s[0]) {
        trim_start(s.drop_first())
    } else {
        s
    }
}

/// `s` without its trailing whitespace (`str::trim_end`).
pub open spec fn trim_end(s: Seq<char>) -> Seq<char>
    decreases s.len(),
{
    if s.len() > 0 && is_ws(s.last()) {
        trim_end(s.drop_last())
    } else {
        s
    }
}

/// `str::trim`.
pub open spec fn trim(s: Seq<char>) -> Seq<char> {
    trim_end(trim_start(s))
}

/// The span of `trim(v[a..b])`.
pub fn trim_span(v: &Vec<char>, a: usize, b: usize) -> (sp: (usize, usize))
    requires
        a <= b <= v.len(),
    ensures
        a <= sp.0 <= sp.1 <= b,
        span_view(v@, sp) == trim(v@.subrange(a as int, b as int)),
{
    let mut s = a;
    while s < b && is_whitespace(v[s])
        invariant
            a <= s <= b <= v.len(),
            trim_start(v@.subrange(a as int, b as int)) == trim_start(
                v@.subrange(s as int, b as int),
            ),
        decreases b - s,
    {
        assert(v@.subrange(s as int, b as int).drop_first() =~= v@.subrange(s + 1, b as int));
        s = s + 1;
    }
    let mut e = b;
    while e > s && is_whitespace(v[e - 1])
        invariant
            a <= s <= e <= b <= v.len(),
            trim_end(v@.subrange(s as int, b as int)) == trim_end(v@.subrange(s as int, e as int)),
        decreases e - s,
    {
        assert(v@.subrange(s as int, e as int).drop_last() =~= v@.subrange(s as int, e - 1));
        e = e - 1;
    }
    (s, e)
}

/// `l` without one trailing carriage return.
pub open spec fn strip_cr(l: Seq<char>) -> Seq<char> {
    if l.len() > 0 && l.last() == '\r' {
        l.drop_last()
    } else {
        l
    }
}

/// `str::lines`: the text split at `\n` or `\r\n`; a final line ending adds no empty line.
pub open spec fn lines(s: Seq<char>) -> Seq<Seq<char>> {
    if s.len() == 0 {
        seq![]
    } else {
        let p = split(s, '\n');
        let body = p.drop_last().map_values(|l: Seq<char>| strip_cr(l));
        if s.last() == '\n' {
            body
        } else {
            body.push(p.last())
        }
    }
}

/// Spans of the lines of `v`.
pub fn line_spans(v: &Vec<char>) -> (spans: Vec<(usize, usize)>)
    ensures
        spans_within(spans@, 0, v.len() as int),
        spans_view(v@, spans@) == lines(v@),
{
    let n = v.len();
    let mut spans: Vec<(usize, usize)> = Vec::new();
    if n == 0 {
        assert(spans_view(v@, spans@) =~= lines(v@));
        return spans;
    }
    let pieces = split_spans(v, 0, n, '\n');
    assert(v@.subrange(0, n as int) =~= v@);
    proof {
        lemma_split_nonempty(v@, '\n');
    }
    let ghost p = split(v@, '\n');
    let ghost body = p.drop_last().map_values(|l: Seq<char>| strip_cr(l));
    let last = pieces.len() - 1;
    let mut i: usize = 0;
    while i < last
        invariant
            n == v.len(),
            last + 1 == pieces.len(),
            spans_within(pieces@, 0, n as int),
            spans_view(v@, pieces@) == p,
            p.len() == pieces.len(),
            body == p.drop_last().map_values(|l: Seq<char>| strip_cr(l)),
            i <= last,
            spans.len() == i,
            spans_within(spans@, 0, n as int),
            spans_view(v@, spans@) == body.take(i as int),
        decreases last - i,
    {
        let (st, en) = pieces[i];
        assert(span_view(v@, pieces@[i as int]) == p[i as int]);
        if en > st && v[en - 1] == '\r' {
            spans.push((st, en - 1));
            assert(v@.subrange(st as int, en - 1) =~= v@.subrange(st as int, en as int).drop_last());
        } else {
            spans.push((st, en));
        }
        i = i + 1;
        assert(spans_view(v@, spans@) =~= body.take(i as int));
    }
    assert(body.take(last as int) =~= body);
    if v[n - 1] != '\n' {
        spans.push(pieces[last]);
        assert(spans_view(v@, spans@) =~= body.push(p.last()));
    }
    spans
}

/// `str::split_whitespace`: the maximal runs of non-whitespace characters.
pub open spec fn words(s: Seq<char>) -> Seq<Seq<char>>
    decreases s.len(),
{
    if s.len() == 0 {
        seq![]
    } else {
        let w = words(s.drop_last());
        let c = s.last();
        if is_ws(c) {
            w
        } else if s.len() >= 2 && !is_ws(s[s.len() - 2]) {
            w.update(w.len() - 1, w.last().push(c))
        } else {
            w.push(seq![c])
        }
    }
}

/// Spans of the words of `v[a..b]`.
pub fn word_spans(v: &Vec<char>, a: usize, b: usize) -> (spans: Vec<(usize, usize)>)
    requires
        a <= b <= v.len(),
    ensures
        spans_within(spans@, a as int, b as int),
        spans_view(v@, spans@) == words(v@.subrange(a as int, b as int)),
{
    let mut spans: Vec<(usize, usize)> = Vec::new();
    let mut start = a;
    let mut in_word = false;
    let mut i = a;
    assert(v@.subrange(a as int, a as int) =~= Seq::<char>::empty());
    assert(spans_view(v@, spans@) =~= words(v@.subrange(a as int, i as int)));
    while i < b
        invariant
            a <= start <= i <= b <= v.len(),
            in_word == (i > a && !is_ws(v@[i - 1])),
            in_word ==> start < i,
            in_word ==> forall|k: int| start <= k < i ==> !is_ws(#[trigger] v@[k]),
            spans_within(spans@, a as int, i as int),
            in_word ==> spans_view(v@, spans@).push(v@.subrange(start as int, i as int))
                == words(v@.subrange(a as int, i as int)),
            !in_word ==> spans_view(v@, spans@) == words(v@.subrange(a as int, i as int)),
        decreases b - i,
    {
        let ghost prev = v@.subrange(a as int, i as int);
        let ghost next = v@.subrange(a as int, i + 1);
        assert(next.drop_last() =~= prev);
        assert(next.last() == v@[i as int]);
        assert(i > a ==> next[next.len() - 2] == v@[i - 1]);
        let c = v[i];
        if is_whitespace(c) {
            if in_word {
                spans.push((start, i));
                assert(spans_view(v@, spans@) =~= words(next));
            }
            in_word = false;
        } else {
            if in_word {
                assert(v@.subrange(start as int, i + 1) =~= v@.subrange(start as int, i as int).push(c));
                assert(spans_view(v@, spans@).push(v@.subrange(start as int, i + 1)) =~= words(next));
            } else {
                start = i;
                assert(v@.subrange(start as int, i + 1) =~= seq![c]);
                assert(spans_view(v@, spans@).push(v@.subrange(start as int, i + 1)) =~= words(next));
            }
            in_word = true;
        }
        i = i + 1;
    }
    if in_word {
        spans.push((start, b));
        assert(spans_view(v@, spans@) =~= words(v@.subrange(a as int, b as int)));
    }
    spans
}

/// `s` begins with `p`.
pub open spec fn starts_with(s: Seq<char>, p: Seq<char>) -> bool {
    p.len() <= s.len() && s.subrange(0, p.len() as int) == p
}

/// Whether `v[a..b]` begins with `p`.
pub fn span_starts_with(v: &Vec<char>, a: usize, b: usize, p: &Vec<char>) -> (r: bool)
    requires
        a <= b <= v.len(),
    ensures
        r == starts_with(v@.subrange(a as int, b as int), p@),
{
    if p.len() > b - a {
        return false;
    }
    let mut k: usize = 0;
    while k < p.len()
        invariant
            a <= b <= v.len(),
            p.len() <= b - a,
            k <= p.len(),
            forall|j: int| 0 <= j < k ==> v@[a + j] == p@[j],
        decreases p.len() - k,
    {
        if v[a + k] != p[k] {
            assert(v@.subrange(a as int, b as int).subrange(0, p.len() as int)[k as int] != p@[k as int]);
            return false;
        }
        k = k + 1;
    }
    assert(v@.subrange(a as int, b as int).subrange(0, p.len() as int) =~= p@);
    true
}

/// Whether `v[a..b]` equals `p`.
pub fn span_equals(v: &Vec<char>, a: usize, b: usize, p: &Vec<char>) -> (r: bool)
    requires
        a <= b <= v.len(),
    ensures
        r == (v@.subrange(a as int, b as int) == p@),
{
    let r = b - a == p.len() && span_starts_with(v, a, b, p);
    proof {
        if b - a == p.len() {
            assert(v@.subrange(a as int, b as int).subrange(0, p.len() as int) =~= v@.subrange(
                a as int,
                b as int,
            ));
        }
    }
    r
}

/// ASCII lowercase of one character (`char::to_ascii_lowercase`).
pub open spec fn lower(c: char) -> char {
    if 65 <= c as u32 <= 90 {
        ((c as u32) + 32) as char
    } else {
        c
    }
}

/// ASCII lowercase of a text (`str::to_ascii_lowercase`).
pub open spec fn lower_seq(s: Seq<char>) -> Seq<char> {
    s.map_values(|c: char| lower(c))
}

/// `char::to_ascii_lowercase`.
pub fn to_lower(c: char) -> (r: char)
    ensures
        r == lower(c),
{
    let u = c as u32;
    if 65 <= u && u <= 90 {
        let b: u8 = (u + 32) as u8;
        b as char
    } else {
        c
    }
}

/// Whether `v[a..b]` equals `p` when ASCII letters are compared without case.
pub fn span_eq_ignore_case(v: &Vec<char>, a: usize, b: usize, p: &Vec<char>) -> (r: bool)
    requires
        a <= b <= v.len(),
    ensures
        r == (lower_seq(v@.subrange(a as int, b as int)) == lower_seq(p@)),
{
    if b - a != p.len() {
        assert(lower_seq(v@.subrange(a as int, b as int)).len() != lower_seq(p@).len());
        return false;
    }
    let mut k: usize = 0;
    while k < p.len()
        invariant
            a <= b <= v.len(),
            p.len() == b - a,
            k <= p.len(),
            forall|j: int| 0 <= j < k ==> lower(v@[a + j]) == lower(p@[j]),
        decreases p.len() - k,
    {
        if to_lower(v[a + k]) != to_lower(p[k]) {
            assert(lower_seq(v@.subrange(a as int, b as int))[k as int] != lower_seq(p@)[k as int]);
            return false;
        }
        k = k + 1;
    }
    assert(lower_seq(v@.subrange(a as int, b as int)) =~= lower_seq(p@));
    true
}

/// Appends one character (`String::push`).
#[verifier::external_body]
pub fn push_char(s: &mut String, c: char)
    ensures
        final(s)@ == old(s)@.push(c),
{
    s.push(c);
}

/// A new string holding `v[a..b]`.
pub fn string_of_span(v: &Vec<char>, a: usize, b: usize) -> (s: String)
    requires
        a <= b <= v.len(),
    ensures
        s@ == v@.subrange(a as int, b as int),
{
    let mut s = String::new();
    let mut k = a;
    while k < b
        invariant
            a <= k <= b <= v.len(),
            s@ == v@.subrange(a as int, k as int),
        decreases b - k,
    {
        push_char(&mut s, v[k]);
        assert(v@.subrange(a as int, k + 1) =~= v@.subrange(a as int, k as int).push(v@[k as int]));
        k = k + 1;
    }
    s
}

/// A new string holding all of `v`.
pub fn string_of(v: &Vec<char>) -> (s: String)
    ensures
        s@ == v@,
{
    let s = string_of_span(v, 0, v.len());
    assert(v@.subrange(0, v.len() as int) =~= v@);
    s
}

/// Whether `c` occurs in `s`.
pub open spec fn has_char(s: Seq<char>, c: char) -> bool {
    exists|i: int| 0 <= i < s.len() && s[i] == c
}

/// The index of the first `c` in `s`.
#[verifier::opaque]
pub open spec fn first_index(s: Seq<char>, c: char) -> Option<int> {
    if has_char(s, c) {
        Some(choose|i: int| 0 <= i < s.len() && s[i] == c && forall|j: int| 0 <= j < i ==> s[j] != c)
    } else {
        None
    }
}

/// `str::split_once` with a char: the text before and after the first `c`.
pub open spec fn split_once(s: Seq<char>, c: char) -> Option<(Seq<char>, Seq<char>)> {
    match first_index(s, c) {
        Some(i) => Some((s.take(i), s.skip(i + 1))),
        None => None,
    }
}

pub proof fn lemma_first_index(s: Seq<char>, c: char, k: int)
    requires
        0 <= k < s.len(),
        s[k] == c,
        forall|j: int| 0 <= j < k ==> s[j] != c,
    ensures
        first_index(s, c) == Some(k),
{
    reveal(first_index);
    let i = choose|i: int| 0 <= i < s.len() && s[i] == c && forall|j: int| 0 <= j < i ==> s[j] != c;
    assert(0 <= i < s.len() && s[i] == c && forall|j: int| 0 <= j < i ==> s[j] != c);
    if i < k {
        assert(s[i] != c);
    }
    if k < i {
        assert(s[k] != c);
    }
}

/// Index (into `v`) of the first `c` in `v[a..b]`.
pub fn find_char(v: &Vec<char>, a: usize, b: usize, c: char) -> (r: Option<usize>)
    requires
        a <= b <= v.len(),
    ensures
        r matches Some(k) ==> a <= k < b && v@[k as int] == c && first_index(
            v@.subrange(a as int, b as int),
            c,
        ) == Some(k - a),
        r is None ==> first_index(v@.subrange(a as int, b as int), c) is None,
{
    let ghost s = v@.subrange(a as int, b as int);
    let mut k = a;
    while k < b
        invariant
            a <= k <= b <= v.len(),
            s == v@.subrange(a as int, b as int),
            forall|j: int| 0 <= j < k - a ==> s[j] != c,
        decreases b - k,
    {
        if v[k] == c {
            proof {
                lemma_first_index(s, c, k - a);
            }
            return Some(k);
        }
        k = k + 1;
    }
    assert(!has_char(s, c));
    reveal(first_index);
    None
}

/// Splitting a text with no separator in it gives the text itself.
pub proof fn lemma_split_none(x: Seq<char>, sep: char)
    requires
        !has_char(x, sep),
    ensures
        split(x, sep) == seq![x],
    decreases x.len(),
{
    if x.len() > 0 {
        assert(!has_char(x.drop_last(), sep)) by {
            if has_char(x.drop_last(), sep) {
                let i = choose|i: int| 0 <= i < x.drop_last().len() && x.drop_last()[i] == sep;
                assert(x[i] == sep);
            }
        }
        lemma_split_none(x.drop_last(), sep);
        assert(x.last() != sep);
        assert(x.drop_last().push(x.last()) =~= x);
        assert(split(x, sep) =~= seq![x]);
    } else {
        assert(x =~= Seq::<char>::empty());
    }
}

/// Splitting `p + [sep] + y` where `y` holds no separator appends `y` as a new piece.
pub proof fn lemma_split_append(p: Seq<char>, y: Seq<char>, sep: char)
    requires
        !has_char(y, sep),
    ensures
        split(p + seq![sep] + y, sep) == split(p, sep).push(y),
    decreases y.len(),
{
    if y.len() == 0 {
        assert(p + seq![sep] + y =~= p.push(sep));
        assert((p.push(sep)).drop_last() =~= p);
        assert(y =~= Seq::<char>::empty());
    } else {
        assert(!has_char(y.drop_last(), sep)) by {
            if has_char(y.drop_last(), sep) {
                let i = choose|i: int| 0 <= i < y.drop_last().len() && y.drop_last()[i] == sep;
                assert(y[i] == sep);
            }
        }
        lemma_split_append(p, y.drop_last(), sep);
        let whole = p + seq![sep] + y;
        assert(whole.drop_last() =~= p + seq![sep] + y.drop_last());
        assert(whole.last() == y.last());
        assert(y.last() != sep);
        assert(y.drop_last().push(y.last()) =~= y);
        assert(split(whole, sep) =~= split(p, sep).push(y));
    }
}

/// The smallest `i` in `0..n` with `p(i)`.
#[verifier::opaque]
pub open spec fn first_where(n: int, p: spec_fn(int) -> bool) -> Option<int> {
    if exists|i: int| 0 <= i < n && #[trigger] p(i) {
        Some(choose|i: int| 0 <= i < n && #[trigger] p(i) && forall|j: int| 0 <= j < i ==> !#[trigger] p(j))
    } else {
        None
    }
}

pub proof fn lemma_first_where_found(n: int, p: spec_fn(int) -> bool, k: int)
    requires
        0 <= k < n,
        p(k),
        forall|j: int| 0 <= j < k ==> !#[trigger] p(j),
    ensures
        first_where(n, p) == Some(k),
{
    reveal(first_where);
    assert(exists|i: int| 0 <= i < n && #[trigger] p(i));
    let i = choose|i: int| 0 <= i < n && #[trigger] p(i) && forall|j: int| 0 <= j < i ==> !#[trigger] p(j);
    assert(0 <= i < n && p(i) && forall|j: int| 0 <= j < i ==> !#[trigger] p(j));
    if i < k {
        assert(!p(i));
    }
    if k < i {
        assert(!p(k));
    }
}

pub proof fn lemma_first_where_none(n: int, p: spec_fn(int) -> bool)
    requires
        forall|i: int| 0 <= i < n ==> !#[trigger] p(i),
    ensures
        first_where(n, p) is None,
{
    reveal(first_where);
}

pub proof fn lemma_first_where(n: int, p: spec_fn(int) -> bool)
    ensures
        first_where(n, p) matches Some(i) ==> 0 <= i < n && p(i) && forall|j: int|
            0 <= j < i ==> !#[trigger] p(j),
        first_where(n, p) is None ==> forall|i: int| 0 <= i < n ==> !#[trigger] p(i),
{
    reveal(first_where);
    if exists|i: int| 0 <= i < n && #[trigger] p(i) {
        let k = choose|i: int| 0 <= i < n && #[trigger] p(i);
        lemma_least_witness(n, p, k);
    }
}

proof fn lemma_least_witness(n: int, p: spec_fn(int) -> bool, k: int)
    requires
        0 <= k < n,
        p(k),
    ensures
        exists|i: int| 0 <= i < n && #[trigger] p(i) && forall|j: int| 0 <= j < i ==> !#[trigger] p(j),
    decreases k,
{
    if exists|j: int| 0 <= j < k && #[trigger] p(j) {
        let j = choose|j: int| 0 <= j < k && #[trigger] p(j);
        lemma_least_witness(n, p, j);
    } else {
        assert(0 <= k < n && p(k) && forall|j: int| 0 <= j < k ==> !#[trigger] p(j));
    }
}

} // verus!
