//! Observation data files: rows at the chosen frequency, matched by timestamp and source.
use vstd::prelude::*;
use crate::text::{
    chars_of, first_where, lemma_first_where_found, lemma_first_where_none, line_spans, lines,
    lower_seq, span_eq_ignore_case, span_view, spans_view, string_of_span, trim, trim_span,
    word_spans, words,
};
use crate::timestamp::{
    data_timestamp, parse_data_timestamp, strings_view, Timestamp, TimestampError,
    TimestampFault,
};

verus! {

/// A data row whose timestamp and source were read; its numbers are kept as text.
#[derive(Debug)]
pub struct RawDataRow {
    pub line: usize,
    pub time: Timestamp,
    pub source: String,
    pub amplitude: String,
    pub snr: String,
    pub mjd: String,
}

/// The mathematical form of a `RawDataRow`.
pub struct DataRowText {
    pub line: nat,
    pub time: Timestamp,
    pub source: Seq<char>,
    pub amplitude: Seq<char>,
    pub snr: Seq<char>,
    pub mjd: Seq<char>,
}

impl View for RawDataRow {
    type V = DataRowText;

    open spec fn view(&self) -> DataRowText {
        DataRowText {
            line: self.line as nat,
            time: self.time,
            source: self.source@,
            amplitude: self.amplitude@,
            snr: self.snr@,
            mjd: self.mjd@,
        }
    }
}

pub open spec fn rows_view(v: Seq<RawDataRow>) -> Seq<DataRowText> {
    v.map_values(|r: RawDataRow| r@)
}

/// Why a data line could not be read.
#[derive(Debug)]
pub enum DataLineError {
    ShortRow,
    Timestamp(TimestampError),
}

pub enum DataLineFault {
    ShortRow,
    Timestamp(TimestampFault),
}

impl View for DataLineError {
    type V = DataLineFault;

    open spec fn view(&self) -> DataLineFault {
        match self {
            DataLineError::ShortRow => DataLineFault::ShortRow,
            DataLineError::Timestamp(e) => DataLineFault::Timestamp(e@),
        }
    }
}

/// Why a data file could not be read: a line (numbered from 1), or no row at all.
#[derive(Debug)]
pub enum DataFailure {
    Line { line: usize, error: DataLineError },
    NoRows,
}

pub enum DataFailureFault {
    Line { line: nat, error: DataLineFault },
    NoRows,
}

impl View for DataFailure {
    type V = DataFailureFault;

    open spec fn view(&self) -> DataFailureFault {
        match self {
            DataFailure::Line { line, error } => DataFailureFault::Line {
                line: *line as nat,
                error: error@,
            },
            DataFailure::NoRows => DataFailureFault::NoRows,
        }
    }
}

/// The rows read before the first failing line, and that failure if there is one.
#[derive(Debug)]
pub struct DataScan {
    pub rows: Vec<RawDataRow>,
    pub failure: Option<DataFailure>,
}

pub struct DataScanView {
    pub rows: Seq<DataRowText>,
    pub failure: Option<DataFailureFault>,
}

impl View for DataScan {
    type V = DataScanView;

    open spec fn view(&self) -> DataScanView {
        DataScanView {
            rows: rows_view(self.rows@),
            failure: match self.failure {
                Some(f) => Some(f@),
                None => None,
            },
        }
    }
}

/// What one line of a data file holds.
pub enum DataLine {
    Skip,
    Row(DataRowText),
    Fail(DataLineFault),
}

/// Tokens that name the wanted frequency, compared in ASCII lowercase.
pub open spec fn is_frequency_token(tokens: Seq<Seq<char>>, wanted: Seq<char>) -> spec_fn(int) -> bool {
    |i: int| lower_seq(tokens[i]) == wanted
}

/// The position of the first token naming the wanted frequency.
pub open spec fn frequency_index(tokens: Seq<Seq<char>>, wanted: Seq<char>) -> Option<int> {
    first_where(tokens.len() as int, is_frequency_token(tokens, wanted))
}

/// One line of a data file: blank and `#` lines and lines without the frequency are
/// skipped; otherwise the row needs 15 tokens after the frequency and a timestamp
/// before it, and gives the source (+1), amplitude (+3), SNR (+4) and MJD (+15).
pub open spec fn data_line(line: Seq<char>, wanted: Seq<char>, number: nat) -> DataLine {
    let t = trim(line);
    if t.len() == 0 || t[0] == '#' {
        DataLine::Skip
    } else {
        let tokens = words(t);
        match frequency_index(tokens, wanted) {
            None => DataLine::Skip,
            Some(fi) => if fi + 15 >= tokens.len() {
                DataLine::Fail(DataLineFault::ShortRow)
            } else {
                match data_timestamp(tokens, fi) {
                    Err(e) => DataLine::Fail(DataLineFault::Timestamp(e)),
                    Ok(time) => DataLine::Row(
                        DataRowText {
                            line: number,
                            time,
                            source: tokens[fi + 1],
                            amplitude: tokens[fi + 3],
                            snr: tokens[fi + 4],
                            mjd: tokens[fi + 15],
                        },
                    ),
                }
            },
        }
    }
}

/// The first `n` lines read in order, stopping at the first failing line.
pub open spec fn scan_data_lines(lines: Seq<Seq<char>>, wanted: Seq<char>, n: nat) -> (
    Seq<DataRowText>,
    Option<DataFailureFault>,
)
    decreases n,
{
    if n == 0 {
        (seq![], None)
    } else {
        let (rows, failure) = scan_data_lines(lines, wanted, (n - 1) as nat);
        if failure is Some {
            (rows, failure)
        } else {
            match data_line(lines[n - 1], wanted, n) {
                DataLine::Skip => (rows, None),
                DataLine::Row(r) => (rows.push(r), None),
                DataLine::Fail(e) => (rows, Some(DataFailureFault::Line { line: n, error: e })),
            }
        }
    }
}

/// A whole data file read at one frequency; a file without any row fails.
pub open spec fn scan_data(text: Seq<char>, frequency: Seq<char>) -> DataScanView {
    let ls = lines(text);
    let scanned = scan_data_lines(ls, lower_seq(frequency), ls.len());
    DataScanView {
        rows: scanned.0,
        failure: if scanned.1 is None && scanned.0.len() == 0 {
            Some(DataFailureFault::NoRows)
        } else {
            scanned.1
        },
    }
}

enum LineResult {
    Skip,
    Row(RawDataRow),
    Fail(DataLineError),
}

impl View for LineResult {
    type V = DataLine;

    closed spec fn view(&self) -> DataLine {
        match self {
            LineResult::Skip => DataLine::Skip,
            LineResult::Row(r) => DataLine::Row(r@),
            LineResult::Fail(e) => DataLine::Fail(e@),
        }
    }
}

/// The words of `v[a..b]`, each as a string.
pub(crate) fn word_strings(v: &Vec<char>, a: usize, b: usize) -> (tokens: Vec<String>)
    requires
        a <= b <= v.len(),
    ensures
        strings_view(tokens@) == words(v@.subrange(a as int, b as int)),
{
    let spans = word_spans(v, a, b);
    let mut tokens: Vec<String> = Vec::new();
    let mut k: usize = 0;
    while k < spans.len()
        invariant
            a <= b <= v.len(),
            k <= spans.len(),
            crate::text::spans_within(spans@, a as int, b as int),
            spans_view(v@, spans@) == words(v@.subrange(a as int, b as int)),
            strings_view(tokens@) == spans_view(v@, spans@).take(k as int),
        decreases spans.len() - k,
    {
        let (x, y) = spans[k];
        let t = string_of_span(v, x, y);
        assert(t@ == spans_view(v@, spans@)[k as int]);
        let ghost before = tokens@;
        tokens.push(t);
        assert(strings_view(tokens@) =~= strings_view(before).push(t@));
        k = k + 1;
        assert(strings_view(tokens@) =~= spans_view(v@, spans@).take(k as int));
    }
    assert(spans_view(v@, spans@).take(k as int) =~= spans_view(v@, spans@));
    tokens
}

/// Position of the first token equal to `frequency` without regard to ASCII case.
fn find_frequency(tokens: &Vec<String>, frequency: &Vec<char>) -> (r: Option<usize>)
    ensures
        r matches Some(k) ==> k < tokens.len() && frequency_index(
            strings_view(tokens@),
            lower_seq(frequency@),
        ) == Some(k as int),
        r is None ==> frequency_index(strings_view(tokens@), lower_seq(frequency@)) is None,
{
    let ghost toks = strings_view(tokens@);
    let ghost p = is_frequency_token(toks, lower_seq(frequency@));
    let mut i: usize = 0;
    while i < tokens.len()
        invariant
            i <= tokens.len(),
            toks == strings_view(tokens@),
            p == is_frequency_token(toks, lower_seq(frequency@)),
            forall|j: int| 0 <= j < i ==> !#[trigger] p(j),
        decreases tokens.len() - i,
    {
        let tv = chars_of(tokens[i].as_str());
        assert(tv@.subrange(0, tv@.len() as int) =~= tv@);
        assert(toks[i as int] == tv@);
        if span_eq_ignore_case(&tv, 0, tv.len(), frequency) {
            proof {
                lemma_first_where_found(toks.len() as int, p, i as int);
            }
            return Some(i);
        }
        i = i + 1;
    }
    proof {
        lemma_first_where_none(toks.len() as int, p);
    }
    None
}

/// Reads line `number` (the span `sp` of `v`) of a data file.
fn read_data_line(v: &Vec<char>, sp: (usize, usize), frequency: &Vec<char>, number: usize) -> (r:
    LineResult)
    requires
        sp.0 <= sp.1 <= v.len(),
    ensures
        r@ == data_line(span_view(v@, sp), lower_seq(frequency@), number as nat),
{
    let (a, b) = trim_span(v, sp.0, sp.1);
    assert(v@.subrange(sp.0 as int, sp.1 as int) == span_view(v@, sp));
    if a == b || v[a] == '#' {
        assert(a < b ==> v@.subrange(a as int, b as int)[0] == v@[a as int]);
        return LineResult::Skip;
    }
    assert(v@.subrange(a as int, b as int)[0] == v@[a as int]);
    let tokens = word_strings(v, a, b);
    let fi = match find_frequency(&tokens, frequency) {
        Some(fi) => fi,
        None => return LineResult::Skip,
    };
    if tokens.len() - fi <= 15 {
        return LineResult::Fail(DataLineError::ShortRow);
    }
    match parse_data_timestamp(&tokens, fi) {
        Err(e) => LineResult::Fail(DataLineError::Timestamp(e)),
        Ok(time) => {
            let row = RawDataRow {
                line: number,
                time,
                source: tokens[fi + 1].clone(),
                amplitude: tokens[fi + 3].clone(),
                snr: tokens[fi + 4].clone(),
                mjd: tokens[fi + 15].clone(),
            };
            assert(strings_view(tokens@)[fi + 1] == tokens@[fi + 1]@);
            assert(strings_view(tokens@)[fi + 3] == tokens@[fi + 3]@);
            assert(strings_view(tokens@)[fi + 4] == tokens@[fi + 4]@);
            assert(strings_view(tokens@)[fi + 15] == tokens@[fi + 15]@);
            LineResult::Row(row)
        },
    }
}

/// Reads the rows of a data file at `frequency`, in file order, up to the first bad line.
pub fn scan_data_text(text: &str, frequency: &str) -> (r: DataScan)
    ensures
        r@ == scan_data(text@, frequency@),
{
    let v = chars_of(text);
    let fv = chars_of(frequency);
    let spans = line_spans(&v);
    let ghost ls = lines(text@);
    let ghost wanted = lower_seq(frequency@);
    let mut rows: Vec<RawDataRow> = Vec::new();
    let mut i: usize = 0;
    while i < spans.len()
        invariant
            v@ == text@,
            fv@ == frequency@,
            wanted == lower_seq(frequency@),
            ls == lines(text@),
            crate::text::spans_within(spans@, 0, v.len() as int),
            spans_view(v@, spans@) == ls,
            i <= spans.len(),
            rows_view(rows@) == scan_data_lines(ls, wanted, i as nat).0,
            scan_data_lines(ls, wanted, i as nat).1 is None,
        decreases spans.len() - i,
    {
        assert(span_view(v@, spans@[i as int]) == ls[i as int]);
        let line = read_data_line(&v, spans[i], &fv, i + 1);
        match line {
            LineResult::Skip => {},
            LineResult::Row(row) => {
                rows.push(row);
                assert(rows_view(rows@) =~= scan_data_lines(ls, wanted, (i + 1) as nat).0);
            },
            LineResult::Fail(e) => {
                let ghost fe = e@;
                let r = DataScan { rows, failure: Some(DataFailure::Line { line: i + 1, error: e }) };
                assert(scan_data_lines(ls, wanted, (i + 1) as nat).1 == Some(
                    DataFailureFault::Line { line: (i + 1) as nat, error: fe },
                ));
                assert(ls.len() == spans.len());
                assert(scan_data_lines(ls, wanted, (i + 1) as nat).0 == rows_view(r.rows@));
                assert(scan_data_lines(ls, wanted, ls.len()) == scan_data_lines(ls, wanted, (i + 1) as nat)) by {
                    lemma_scan_data_stops(ls, wanted, (i + 1) as nat, ls.len());
                }
                assert(r@.failure == scan_data_lines(ls, wanted, (i + 1) as nat).1);
                assert(scan_data_lines(ls, wanted, ls.len()) == scan_data_lines(ls, wanted, (i + 1) as nat)) by {
                    lemma_scan_data_stops(ls, wanted, (i + 1) as nat, ls.len());
                }
                return r;
            },
        }
        i = i + 1;
    }
    let failure = if rows.len() == 0 {
        Some(DataFailure::NoRows)
    } else {
        None
    };
    DataScan { rows, failure }
}

/// Once a line has failed, reading further lines changes nothing.
pub proof fn lemma_scan_data_stops(lines: Seq<Seq<char>>, wanted: Seq<char>, m: nat, n: nat)
    requires
        m <= n,
        scan_data_lines(lines, wanted, m).1 is Some,
    ensures
        scan_data_lines(lines, wanted, n) == scan_data_lines(lines, wanted, m),
    decreases n - m,
{
    if m < n {
        lemma_scan_data_stops(lines, wanted, m, (n - 1) as nat);
    }
}

/// Rows with the given timestamp and source.
pub open spec fn row_matches(rows: Seq<DataRowText>, time: Timestamp, source: Seq<char>) -> spec_fn(
    int,
) -> bool {
    |i: int| rows[i].time == time && rows[i].source == source
}

/// The first row observed at `time` for `source`.
pub open spec fn lookup(rows: Seq<DataRowText>, time: Timestamp, source: Seq<char>) -> Option<int> {
    first_where(rows.len() as int, row_matches(rows, time, source))
}

/// Index of the first data row with the given timestamp and source.
pub fn find_data_row(rows: &Vec<RawDataRow>, time: Timestamp, source: &String) -> (r: Option<usize>)
    ensures
        r matches Some(k) ==> k < rows.len() && lookup(rows_view(rows@), time, source@) == Some(
            k as int,
        ),
        r is None ==> lookup(rows_view(rows@), time, source@) is None,
{
    let ghost rv = rows_view(rows@);
    let ghost p = row_matches(rv, time, source@);
    let mut i: usize = 0;
    while i < rows.len()
        invariant
            i <= rows.len(),
            rv == rows_view(rows@),
            p == row_matches(rv, time, source@),
            forall|j: int| 0 <= j < i ==> !#[trigger] p(j),
        decreases rows.len() - i,
    {
        assert(rv[i as int] == rows@[i as int]@);
        if rows[i].time == time && rows[i].source == *source {
            proof {
                lemma_first_where_found(rv.len() as int, p, i as int);
            }
            return Some(i);
        }
        i = i + 1;
    }
    proof {
        lemma_first_where_none(rv.len() as int, p);
    }
    None
}

/// A schedule entry is matched with the first data row that has its timestamp and its
/// source; when there is none, no row has both.
pub proof fn lemma_lookup(rows: Seq<DataRowText>, time: Timestamp, source: Seq<char>)
    ensures
        lookup(rows, time, source) matches Some(i) ==> {
            &&& 0 <= i < rows.len()
            &&& rows[i].time == time && rows[i].source == source
            &&& forall|j: int| 0 <= j < i ==> !(rows[j].time == time && rows[j].source == source)
        },
        lookup(rows, time, source) is None ==> forall|j: int|
            0 <= j < rows.len() ==> !(#[trigger] rows[j].time == time && rows[j].source == source),
{
    let p = row_matches(rows, time, source);
    crate::text::lemma_first_where(rows.len() as int, p);
    if lookup(rows, time, source) is None {
        assert forall|j: int| 0 <= j < rows.len() implies !(#[trigger] rows[j].time == time
            && rows[j].source == source) by {
            assert(!p(j));
        }
    } else {
        let i = lookup(rows, time, source)->Some_0;
        assert(p(i));
        assert forall|j: int| 0 <= j < i implies !(rows[j].time == time && rows[j].source == source) by {
            assert(!p(j));
        }
    }
}

/// The rows come in file order: their line numbers are between 1 and the number of
/// lines read and strictly increase.
pub proof fn lemma_rows_in_file_order(lines: Seq<Seq<char>>, wanted: Seq<char>, n: nat)
    ensures
        forall|k: int|
            0 <= k < scan_data_lines(lines, wanted, n).0.len() ==> 1 <= #[trigger] scan_data_lines(
                lines,
                wanted,
                n,
            ).0[k].line <= n,
        forall|k: int, l: int|
            0 <= k < l < scan_data_lines(lines, wanted, n).0.len() ==> scan_data_lines(
                lines,
                wanted,
                n,
            ).0[k].line < scan_data_lines(lines, wanted, n).0[l].line,
    decreases n,
{
    if n > 0 {
        lemma_rows_in_file_order(lines, wanted, (n - 1) as nat);
        let prev = scan_data_lines(lines, wanted, (n - 1) as nat).0;
        let cur = scan_data_lines(lines, wanted, n).0;
        if scan_data_lines(lines, wanted, (n - 1) as nat).1 is None {
            if let DataLine::Row(r) = data_line(lines[n - 1], wanted, n) {
                assert(r.line == n);
                assert(cur == prev.push(r));
                assert forall|k: int, l: int| 0 <= k < l < cur.len() implies cur[k].line < cur[l].line by {
                    if l == cur.len() - 1 {
                        assert(cur[k] == prev[k]);
                    } else {
                        assert(cur[k] == prev[k] && cur[l] == prev[l]);
                    }
                }
                assert forall|k: int| 0 <= k < cur.len() implies 1 <= #[trigger] cur[k].line <= n by {
                    if k < prev.len() {
                        assert(cur[k] == prev[k]);
                    }
                }
            } else {
                assert(cur == prev);
            }
        } else {
            assert(cur == prev);
        }
    }
}

} // verus!
