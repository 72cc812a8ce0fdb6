//! The flux-calibrator catalogue: names, aliases and the numeric columns of each source.
use vstd::prelude::*;
use crate::text::{
    chars_of, first_where, lemma_first_where_found, lemma_first_where_none, line_spans, lines,
    lower_seq, span_eq_ignore_case, span_starts_with, span_view, spans_view, split, split_spans,
    starts_with, string_of_span, trim, trim_span,
};
use crate::timestamp::strings_view;

verus! {

/// A catalogue line: the primary name, its non-empty aliases among the first three
/// columns, and the fourteen numeric columns as text.
#[derive(Debug)]
pub struct CatalogRow {
    pub line: usize,
    pub primary_name: String,
    pub aliases: Vec<String>,
    pub numbers: Vec<String>,
}

pub struct CatalogRowText {
    pub line: nat,
    pub primary_name: Seq<char>,
    pub aliases: Seq<Seq<char>>,
    pub numbers: Seq<Seq<char>>,
}

impl View for CatalogRow {
    type V = CatalogRowText;

    open spec fn view(&self) -> CatalogRowText {
        CatalogRowText {
            line: self.line as nat,
            primary_name: self.primary_name@,
            aliases: strings_view(self.aliases@),
            numbers: strings_view(self.numbers@),
        }
    }
}

pub open spec fn catalog_view(v: Seq<CatalogRow>) -> Seq<CatalogRowText> {
    v.map_values(|r: CatalogRow| r@)
}

/// A catalogue line with another number of tab-separated fields than 17.
#[derive(Debug, Clone, Copy, PartialEq, Eq, Structural)]
pub struct CatalogFailure {
    pub line: usize,
    pub fields: usize,
}

/// The rows read before the first bad line, and that line if there is one.
#[derive(Debug)]
pub struct CatalogScan {
    pub rows: Vec<CatalogRow>,
    pub failure: Option<CatalogFailure>,
}

pub struct CatalogScanView {
    pub rows: Seq<CatalogRowText>,
    pub failure: Option<CatalogFailure>,
}

impl View for CatalogScan {
    type V = CatalogScanView;

    open spec fn view(&self) -> CatalogScanView {
        CatalogScanView { rows: catalog_view(self.rows@), failure: self.failure }
    }
}

/// The non-empty texts of `s`, in order.
pub open spec fn non_empty(s: Seq<Seq<char>>) -> Seq<Seq<char>>
    decreases s.len(),
{
    if s.len() == 0 {
        seq![]
    } else if s.last().len() == 0 {
        non_empty(s.drop_last())
    } else {
        non_empty(s.drop_last()).push(s.last())
    }
}

pub enum CatalogLine {
    Skip,
    Row(CatalogRowText),
    Fail(nat),
}

/// One catalogue line: blank, `#` and `source_name<TAB>` header lines are skipped;
/// otherwise the untrimmed line must split into 17 tab-separated fields.
pub open spec fn catalog_line(line: Seq<char>, number: nat) -> CatalogLine {
    let t = trim(line);
    if t.len() == 0 || t[0] == '#' || starts_with(t, "source_name\t"@) {
        CatalogLine::Skip
    } else {
        let fields = split(line, '\t');
        if fields.len() != 17 {
            CatalogLine::Fail(fields.len())
        } else {
            CatalogLine::Row(
                CatalogRowText {
                    line: number,
                    primary_name: fields[0],
                    aliases: non_empty(fields.take(3)),
                    numbers: fields.subrange(3, 17),
                },
            )
        }
    }
}

pub open spec fn scan_catalog_lines(lines: Seq<Seq<char>>, n: nat) -> (
    Seq<CatalogRowText>,
    Option<CatalogFailure>,
)
    decreases n,
{
    if n == 0 {
        (seq![], None)
    } else {
        let prev = scan_catalog_lines(lines, (n - 1) as nat);
        if prev.1 is Some {
            prev
        } else {
            match catalog_line(lines[n - 1], n) {
                CatalogLine::Skip => prev,
                CatalogLine::Row(r) => (prev.0.push(r), None),
                CatalogLine::Fail(count) => (
                    prev.0,
                    Some(CatalogFailure { line: n as usize, fields: count as usize }),
                ),
            }
        }
    }
}

/// A whole catalogue read in order, stopping at the first line with a wrong field count;
/// numeric columns stay text.
pub open spec fn scan_catalog(text: Seq<char>) -> CatalogScanView {
    let ls = lines(text);
    let scanned = scan_catalog_lines(ls, ls.len());
    CatalogScanView { rows: scanned.0, failure: scanned.1 }
}

pub proof fn lemma_scan_catalog_stops(lines: Seq<Seq<char>>, m: nat, n: nat)
    requires
        m <= n,
        scan_catalog_lines(lines, m).1 is Some,
    ensures
        scan_catalog_lines(lines, n) == scan_catalog_lines(lines, m),
    decreases n - m,
{
    if m < n {
        lemma_scan_catalog_stops(lines, m, (n - 1) as nat);
    }
}

/// Strings of the spans `spans[from..to]` of `v`.
fn span_strings(v: &Vec<char>, spans: &Vec<(usize, usize)>, from: usize, to: usize) -> (r: Vec<
    String,
>)
    requires
        from <= to <= spans.len(),
        crate::text::spans_within(spans@, 0, v.len() as int),
    ensures
        strings_view(r@) == spans_view(v@, spans@).subrange(from as int, to as int),
{
    let mut r: Vec<String> = Vec::new();
    let mut k = from;
    while k < to
        invariant
            from <= k <= to <= spans.len(),
            crate::text::spans_within(spans@, 0, v.len() as int),
            strings_view(r@) == spans_view(v@, spans@).subrange(from as int, k as int),
        decreases to - k,
    {
        let s = string_of_span(v, spans[k].0, spans[k].1);
        assert(s@ == spans_view(v@, spans@)[k as int]);
        let ghost before = r@;
        r.push(s);
        assert(strings_view(r@) =~= strings_view(before).push(s@));
        assert(strings_view(r@) =~= spans_view(v@, spans@).subrange(from as int, k + 1));
        k = k + 1;
    }
    r
}

/// The non-empty texts among the spans `spans[0..n]` of `v`.
fn non_empty_strings(v: &Vec<char>, spans: &Vec<(usize, usize)>, n: usize) -> (r: Vec<String>)
    requires
        n <= spans.len(),
        crate::text::spans_within(spans@, 0, v.len() as int),
    ensures
        strings_view(r@) == non_empty(spans_view(v@, spans@).take(n as int)),
{
    let mut r: Vec<String> = Vec::new();
    let mut k: usize = 0;
    assert(spans_view(v@, spans@).take(0) =~= Seq::<Seq<char>>::empty());
    while k < n
        invariant
            k <= n <= spans.len(),
            crate::text::spans_within(spans@, 0, v.len() as int),
            strings_view(r@) == non_empty(spans_view(v@, spans@).take(k as int)),
        decreases n - k,
    {
        let ghost sv = spans_view(v@, spans@);
        assert(sv.take(k + 1).drop_last() =~= sv.take(k as int));
        assert(sv.take(k + 1).last() == sv[k as int]);
        let (a, b) = spans[k];
        if a < b {
            let s = string_of_span(v, a, b);
            let ghost before = r@;
            r.push(s);
            assert(strings_view(r@) =~= strings_view(before).push(s@));
        }
        k = k + 1;
    }
    r
}

enum LineResult {
    Skip,
    Row(CatalogRow),
    Fail(usize),
}

impl View for LineResult {
    type V = CatalogLine;

    closed spec fn view(&self) -> CatalogLine {
        match self {
            LineResult::Skip => CatalogLine::Skip,
            LineResult::Row(r) => CatalogLine::Row(r@),
            LineResult::Fail(n) => CatalogLine::Fail(*n as nat),
        }
    }
}

fn read_catalog_line(v: &Vec<char>, sp: (usize, usize), header: &Vec<char>, number: usize) -> (r:
    LineResult)
    requires
        sp.0 <= sp.1 <= v.len(),
        header@ == "source_name\t"@,
    ensures
        r@ == catalog_line(span_view(v@, sp), number as nat),
{
    let (a, b) = trim_span(v, sp.0, sp.1);
    assert(a < b ==> v@.subrange(a as int, b as int)[0] == v@[a as int]);
    if a == b || v[a] == '#' || span_starts_with(v, a, b, header) {
        return LineResult::Skip;
    }
    let fields = split_spans(v, sp.0, sp.1, '\t');
    if fields.len() != 17 {
        return LineResult::Fail(fields.len());
    }
    let ghost fv = spans_view(v@, fields@);
    let primary_name = string_of_span(v, fields[0].0, fields[0].1);
    let aliases = non_empty_strings(v, &fields, 3);
    let numbers = span_strings(v, &fields, 3, 17);
    assert(primary_name@ == fv[0]);
    LineResult::Row(CatalogRow { line: number, primary_name, aliases, numbers })
}

/// Reads the catalogue lines in order, up to the first line with a wrong number of fields.
pub fn scan_catalog_text(text: &str) -> (r: CatalogScan)
    ensures
        r@ == scan_catalog(text@),
{
    let v = chars_of(text);
    let spans = line_spans(&v);
    let header = chars_of("source_name\t");
    let ghost ls = lines(text@);
    let mut rows: Vec<CatalogRow> = Vec::new();
    let mut i: usize = 0;
    while i < spans.len()
        invariant
            v@ == text@,
            header@ == "source_name\t"@,
            ls == lines(text@),
            crate::text::spans_within(spans@, 0, v.len() as int),
            spans_view(v@, spans@) == ls,
            i <= spans.len(),
            catalog_view(rows@) == scan_catalog_lines(ls, i as nat).0,
            scan_catalog_lines(ls, i as nat).1 is None,
        decreases spans.len() - i,
    {
        assert(span_view(v@, spans@[i as int]) == ls[i as int]);
        match read_catalog_line(&v, spans[i], &header, i + 1) {
            LineResult::Skip => {},
            LineResult::Row(row) => {
                let ghost before = rows@;
                rows.push(row);
                assert(catalog_view(rows@) =~= catalog_view(before).push(row@));
            },
            LineResult::Fail(count) => {
                let r = CatalogScan { rows, failure: Some(CatalogFailure { line: i + 1, fields: count }) };
                assert(scan_catalog_lines(ls, (i + 1) as nat) == (catalog_view(r.rows@), r.failure));
                proof {
                    lemma_scan_catalog_stops(ls, (i + 1) as nat, ls.len());
                }
                return r;
            },
        }
        i = i + 1;
    }
    CatalogScan { rows, failure: None }
}

/// A catalogue entry answers to `source` when one of its aliases equals it without
/// regard to ASCII case.
pub open spec fn names_source(row: CatalogRowText, source: Seq<char>) -> bool {
    exists|i: int| 0 <= i < row.aliases.len() && lower_seq(#[trigger] row.aliases[i]) == lower_seq(source)
}

impl CatalogRow {
    /// Whether one of the aliases equals `source` without regard to ASCII case.
    pub fn matches_source(&self, source: &str) -> (r: bool)
        ensures
            r == names_source(self@, source@),
    {
        let sv = chars_of(source);
        let mut i: usize = 0;
        while i < self.aliases.len()
            invariant
                sv@ == source@,
                i <= self.aliases.len(),
                forall|j: int| 0 <= j < i ==> lower_seq(#[trigger] self@.aliases[j]) != lower_seq(source@),
            decreases self.aliases.len() - i,
        {
            let av = chars_of(self.aliases[i].as_str());
            assert(av@.subrange(0, av@.len() as int) =~= av@);
            assert(self@.aliases[i as int] == av@);
            if span_eq_ignore_case(&av, 0, av.len(), &sv) {
                return true;
            }
            i = i + 1;
        }
        false
    }
}

pub open spec fn answers_to(rows: Seq<CatalogRowText>, source: Seq<char>) -> spec_fn(int) -> bool {
    |i: int| names_source(rows[i], source)
}

/// `find_flux_calibrator`: the first catalogue entry that answers to `source`.
pub open spec fn calibrator_for(rows: Seq<CatalogRowText>, source: Seq<char>) -> Option<int> {
    first_where(rows.len() as int, answers_to(rows, source))
}

/// Index of the first catalogue entry that answers to `source`.
pub fn find_flux_calibrator(catalog: &Vec<CatalogRow>, source: &str) -> (r: Option<usize>)
    ensures
        r matches Some(k) ==> k < catalog.len() && calibrator_for(catalog_view(catalog@), source@)
            == Some(k as int),
        r is None ==> calibrator_for(catalog_view(catalog@), source@) is None,
{
    let ghost rows = catalog_view(catalog@);
    let ghost p = answers_to(rows, source@);
    let mut i: usize = 0;
    while i < catalog.len()
        invariant
            i <= catalog.len(),
            rows == catalog_view(catalog@),
            p == answers_to(rows, source@),
            forall|j: int| 0 <= j < i ==> !#[trigger] p(j),
        decreases catalog.len() - i,
    {
        assert(rows[i as int] == catalog@[i as int]@);
        if catalog[i].matches_source(source) {
            proof {
                lemma_first_where_found(rows.len() as int, p, i as int);
            }
            return Some(i);
        }
        i = i + 1;
    }
    proof {
        lemma_first_where_none(rows.len() as int, p);
    }
    None
}

/// The observing bands that the catalogue tabulates.
#[derive(Debug, Clone, Copy, PartialEq, Eq, Structural)]
pub enum Band {
    C,
    X,
    K,
}

/// The band a frequency label names: `c`, `x` or `k` in either case.
pub open spec fn band_of(frequency: Seq<char>) -> Option<Band> {
    let f = lower_seq(frequency);
    if f == seq!['c'] {
        Some(Band::C)
    } else if f == seq!['x'] {
        Some(Band::X)
    } else if f == seq!['k'] {
        Some(Band::K)
    } else {
        None
    }
}

/// The band that a frequency label names, if any.
pub fn parse_band(frequency: &str) -> (r: Option<Band>)
    ensures
        r == band_of(frequency@),
{
    let f = chars_of(frequency);
    assert(f@.subrange(0, f@.len() as int) =~= f@);
    let mut c: Vec<char> = Vec::new();
    c.push('c');
    let mut x: Vec<char> = Vec::new();
    x.push('x');
    let mut k: Vec<char> = Vec::new();
    k.push('k');
    assert(lower_seq(c@) =~= seq!['c']);
    assert(lower_seq(x@) =~= seq!['x']);
    assert(lower_seq(k@) =~= seq!['k']);
    if span_eq_ignore_case(&f, 0, f.len(), &c) {
        Some(Band::C)
    } else if span_eq_ignore_case(&f, 0, f.len(), &x) {
        Some(Band::X)
    } else if span_eq_ignore_case(&f, 0, f.len(), &k) {
        Some(Band::K)
    } else {
        None
    }
}

} // verus!
