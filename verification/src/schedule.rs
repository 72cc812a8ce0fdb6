//! Schedule files: the `$SKED` section and the five-point scans found in it.
use vstd::prelude::*;
use crate::data::{lookup, rows_view, find_data_row, RawDataRow};
use crate::text::{
    chars_of, line_spans, lines, span_equals, span_starts_with, span_view, spans_view, starts_with,
    trim, trim_span, words,
};
use crate::timestamp::{
    parse_schedule_timestamp, schedule_timestamp, strings_view, Timestamp,
};

verus! {

/// A `$SKED` line: source, timestamp and the AZ/EL offsets, still as text.
#[derive(Debug)]
pub struct RawScheduleEntry {
    pub line: usize,
    pub source: String,
    pub time: Timestamp,
    pub az_offset: String,
    pub el_offset: String,
}

pub struct ScheduleLineText {
    pub line: nat,
    pub source: Seq<char>,
    pub time: Timestamp,
    pub az_offset: Seq<char>,
    pub el_offset: Seq<char>,
}

impl View for RawScheduleEntry {
    type V = ScheduleLineText;

    open spec fn view(&self) -> ScheduleLineText {
        ScheduleLineText {
            line: self.line as nat,
            source: self.source@,
            time: self.time,
            az_offset: self.az_offset@,
            el_offset: self.el_offset@,
        }
    }
}

pub open spec fn raw_entries_view(v: Seq<RawScheduleEntry>) -> Seq<ScheduleLineText> {
    v.map_values(|e: RawScheduleEntry| e@)
}

/// What a schedule file holds: the experiment named by `$EXPER`, and the `$SKED` entries.
#[derive(Debug)]
pub struct ScheduleText {
    pub experiment: Option<String>,
    pub entries: Vec<RawScheduleEntry>,
}

pub struct ScheduleTextView {
    pub experiment: Option<Seq<char>>,
    pub entries: Seq<ScheduleLineText>,
}

impl View for ScheduleText {
    type V = ScheduleTextView;

    open spec fn view(&self) -> ScheduleTextView {
        ScheduleTextView {
            experiment: match self.experiment {
                Some(e) => Some(e@),
                None => None,
            },
            entries: raw_entries_view(self.entries@),
        }
    }
}

/// Where a reader of a schedule file stands after some lines.
pub struct SkedState {
    pub experiment: Option<Seq<char>>,
    pub in_sked: bool,
    pub done: bool,
    pub entries: Seq<ScheduleLineText>,
}

pub open spec fn sked_start() -> SkedState {
    SkedState { experiment: None, in_sked: false, done: false, entries: seq![] }
}

/// One line of a schedule file. `$EXPER NAME` names the experiment; `$SKED` opens the
/// section; inside it, a further `$` line ends the reading; blank and `*` lines are
/// skipped; an entry needs six words and a valid timestamp as its second word.
pub open spec fn sked_step(st: SkedState, line: Seq<char>, number: nat) -> SkedState {
    let t = trim(line);
    if st.done {
        st
    } else if starts_with(t, "$EXPER"@) {
        let parts = words(t);
        SkedState {
            experiment: if parts.len() >= 2 {
                Some(parts[1])
            } else {
                st.experiment
            },
            ..st
        }
    } else if t == "$SKED"@ {
        SkedState { in_sked: true, ..st }
    } else if st.in_sked && starts_with(t, "$"@) {
        SkedState { done: true, ..st }
    } else if !st.in_sked || t.len() == 0 || t[0] == '*' {
        st
    } else {
        let parts = words(t);
        if parts.len() < 6 {
            st
        } else {
            match schedule_timestamp(parts[1]) {
                Err(_) => st,
                Ok(time) => SkedState {
                    entries: st.entries.push(
                        ScheduleLineText {
                            line: number,
                            source: parts[0],
                            time,
                            az_offset: parts[3],
                            el_offset: parts[4],
                        },
                    ),
                    ..st
                },
            }
        }
    }
}

pub open spec fn scan_schedule_lines(lines: Seq<Seq<char>>, n: nat) -> SkedState
    decreases n,
{
    if n == 0 {
        sked_start()
    } else {
        sked_step(scan_schedule_lines(lines, (n - 1) as nat), lines[n - 1], n)
    }
}

/// A whole schedule file: the experiment and the `$SKED` entries, offsets still text.
pub open spec fn scan_schedule(text: Seq<char>) -> ScheduleTextView {
    let ls = lines(text);
    let st = scan_schedule_lines(ls, ls.len());
    ScheduleTextView { experiment: st.experiment, entries: st.entries }
}

/// Reads the experiment name and the `$SKED` entries of a schedule file.
pub fn scan_schedule_text(text: &str) -> (r: ScheduleText)
    ensures
        r@ == scan_schedule(text@),
{
    let v = chars_of(text);
    let spans = line_spans(&v);
    let exper = chars_of("$EXPER");
    let sked = chars_of("$SKED");
    let dollar = chars_of("$");
    let ghost ls = lines(text@);
    let mut experiment: Option<String> = None;
    let mut in_sked = false;
    let mut done = false;
    let mut entries: Vec<RawScheduleEntry> = Vec::new();
    let mut i: usize = 0;
    while i < spans.len()
        invariant
            v@ == text@,
            ls == lines(text@),
            exper@ == "$EXPER"@,
            sked@ == "$SKED"@,
            dollar@ == "$"@,
            crate::text::spans_within(spans@, 0, v.len() as int),
            spans_view(v@, spans@) == ls,
            i <= spans.len(),
            ({
                let st = scan_schedule_lines(ls, i as nat);
                &&& st.experiment == match experiment {
                    Some(e) => Some(e@),
                    None => None::<Seq<char>>,
                }
                &&& st.in_sked == in_sked
                &&& st.done == done
                &&& st.entries == raw_entries_view(entries@)
            }),
        decreases spans.len() - i,
    {
        assert(span_view(v@, spans@[i as int]) == ls[i as int]);
        let ghost line = ls[i as int];
        let (a, b) = trim_span(&v, spans[i].0, spans[i].1);
        let ghost t = trim(line);
        assert(v@.subrange(a as int, b as int) == t);
        assert(a < b ==> t[0] == v@[a as int]);
        if done {
        } else if span_starts_with(&v, a, b, &exper) {
            let parts = crate::data::word_strings(&v, a, b);
            if parts.len() >= 2 {
                assert(strings_view(parts@)[1] == parts@[1]@);
                experiment = Some(parts[1].clone());
            }
        } else if span_equals(&v, a, b, &sked) {
            in_sked = true;
        } else if in_sked && span_starts_with(&v, a, b, &dollar) {
            done = true;
        } else if !in_sked || a == b || v[a] == '*' {
        } else {
            let parts = crate::data::word_strings(&v, a, b);
            if parts.len() >= 6 {
                assert(strings_view(parts@)[1] == parts@[1]@);
                match parse_schedule_timestamp(parts[1].as_str()) {
                    Err(_) => {},
                    Ok(time) => {
                        assert(strings_view(parts@)[0] == parts@[0]@);
                        assert(strings_view(parts@)[3] == parts@[3]@);
                        assert(strings_view(parts@)[4] == parts@[4]@);
                        let entry = RawScheduleEntry {
                            line: i + 1,
                            source: parts[0].clone(),
                            time,
                            az_offset: parts[3].clone(),
                            el_offset: parts[4].clone(),
                        };
                        let ghost before = entries@;
                        entries.push(entry);
                        assert(raw_entries_view(entries@) =~= raw_entries_view(before).push(
                            entry@,
                        ));
                    },
                }
            }
        }
        i = i + 1;
    }
    ScheduleText { experiment, entries }
}

/// The sign class of an offset: within 1e-9 of zero, positive, negative, or not a number.
#[derive(Debug, Clone, Copy, PartialEq, Eq, Structural)]
pub enum OffsetSign {
    Zero,
    Positive,
    Negative,
    Undefined,
}

/// A schedule entry with its offsets reduced to their sign classes.
#[derive(Debug)]
pub struct ScheduleEntry {
    pub source: String,
    pub time: Timestamp,
    pub az: OffsetSign,
    pub el: OffsetSign,
}

pub struct EntrySigns {
    pub source: Seq<char>,
    pub time: Timestamp,
    pub az: OffsetSign,
    pub el: OffsetSign,
}

impl View for ScheduleEntry {
    type V = EntrySigns;

    open spec fn view(&self) -> EntrySigns {
        EntrySigns { source: self.source@, time: self.time, az: self.az, el: self.el }
    }
}

pub open spec fn entries_view(v: Seq<ScheduleEntry>) -> Seq<EntrySigns> {
    v.map_values(|e: ScheduleEntry| e@)
}

pub open spec fn is_zero(s: OffsetSign) -> bool {
    s == OffsetSign::Zero
}

/// Two offsets whose product is negative.
pub open spec fn opposite(a: OffsetSign, b: OffsetSign) -> bool {
    (a == OffsetSign::Positive && b == OffsetSign::Negative) || (a == OffsetSign::Negative && b
        == OffsetSign::Positive)
}

/// Five entries from `i` form a five-point scan: one source, and the offsets
/// AZ+/-, centre, AZ-/+, EL+/-, EL-/+ with the two AZ and the two EL offsets of opposite sign.
pub open spec fn is_scan_at(e: Seq<EntrySigns>, i: int) -> bool {
    &&& 0 <= i && i + 5 <= e.len()
    &&& forall|k: int| 0 <= k < 5 ==> #[trigger] e[i + k].source == e[i].source
    &&& !is_zero(e[i].az) && is_zero(e[i].el)
    &&& is_zero(e[i + 1].az) && is_zero(e[i + 1].el)
    &&& !is_zero(e[i + 2].az) && is_zero(e[i + 2].el)
    &&& is_zero(e[i + 3].az) && !is_zero(e[i + 3].el)
    &&& is_zero(e[i + 4].az) && !is_zero(e[i + 4].el)
    &&& opposite(e[i].az, e[i + 2].az)
    &&& opposite(e[i + 3].el, e[i + 4].el)
}

fn sign_is_zero(s: OffsetSign) -> (r: bool)
    ensures
        r == is_zero(s),
{
    match s {
        OffsetSign::Zero => true,
        _ => false,
    }
}

fn signs_opposite(a: OffsetSign, b: OffsetSign) -> (r: bool)
    ensures
        r == opposite(a, b),
{
    match (a, b) {
        (OffsetSign::Positive, OffsetSign::Negative) => true,
        (OffsetSign::Negative, OffsetSign::Positive) => true,
        _ => false,
    }
}

fn scan_at(entries: &Vec<ScheduleEntry>, i: usize) -> (r: bool)
    requires
        i + 5 <= entries.len(),
    ensures
        r == is_scan_at(entries_view(entries@), i as int),
{
    let ghost e = entries_view(entries@);
    let mut same = true;
    let mut k: usize = 1;
    while k < 5
        invariant
            1 <= k <= 5,
            i + 5 <= entries.len(),
            e == entries_view(entries@),
            same == (forall|j: int| 0 <= j < k ==> #[trigger] e[i + j].source == e[i as int].source),
        decreases 5 - k,
    {
        assert(e[i + k as int] == entries@[i + k as int]@);
        assert(e[i as int] == entries@[i as int]@);
        let eq = entries[i + k].source == entries[i].source;
        proof {
            if !eq {
                assert(e[i + k as int].source != e[i as int].source);
            }
        }
        same = same && eq;
        k = k + 1;
    }
    assert(forall|j: int| 0 <= j < 5 ==> e[i + j] == #[trigger] entries@[i + j]@);
    let w0 = &entries[i];
    let w1 = &entries[i + 1];
    let w2 = &entries[i + 2];
    let w3 = &entries[i + 3];
    let w4 = &entries[i + 4];
    assert(e[i + 0] == w0@);
    assert(e[i + 1] == w1@);
    assert(e[i + 2] == w2@);
    assert(e[i + 3] == w3@);
    assert(e[i + 4] == w4@);
    same && !sign_is_zero(w0.az) && sign_is_zero(w0.el) && sign_is_zero(w1.az) && sign_is_zero(
        w1.el,
    ) && !sign_is_zero(w2.az) && sign_is_zero(w2.el) && sign_is_zero(w3.az) && !sign_is_zero(w3.el)
        && sign_is_zero(w4.az) && !sign_is_zero(w4.el) && signs_opposite(w0.az, w2.az)
        && signs_opposite(w3.el, w4.el)
}

/// The first index of every five-entry window that forms a five-point
/// scan, in increasing order.
pub fn find_scans(entries: &Vec<ScheduleEntry>) -> (starts: Vec<usize>)
    ensures
        forall|k: int| 0 <= k < starts.len() ==> is_scan_at(entries_view(entries@), #[trigger] starts@[k] as int),
        forall|k: int, l: int| 0 <= k < l < starts.len() ==> starts@[k] < starts@[l],
        forall|i: int| is_scan_at(entries_view(entries@), i) ==> starts@.contains(i as usize),
{
    let mut starts: Vec<usize> = Vec::new();
    if entries.len() < 5 {
        return starts;
    }
    let last = entries.len() - 5;
    let mut i: usize = 0;
    while i <= last
        invariant
            last + 5 == entries.len(),
            i <= last + 1,
            forall|k: int| 0 <= k < starts.len() ==> is_scan_at(entries_view(entries@), #[trigger] starts@[k] as int),
            forall|k: int| 0 <= k < starts.len() ==> #[trigger] starts@[k] < i,
            forall|k: int, l: int| 0 <= k < l < starts.len() ==> starts@[k] < starts@[l],
            forall|j: int| 0 <= j < i && is_scan_at(entries_view(entries@), j) ==> starts@.contains(j as usize),
        decreases last + 1 - i,
    {
        if scan_at(entries, i) {
            let ghost before = starts@;
            starts.push(i);
            assert forall|j: int| 0 <= j < i + 1 && is_scan_at(entries_view(entries@), j) implies starts@.contains(j as usize) by {
                if j < i {
                    assert(before.contains(j as usize));
                    let k = choose|k: int| 0 <= k < before.len() && before[k] == j as usize;
                    assert(starts@[k] == j as usize);
                } else {
                    assert(starts@[before.len() as int] == i);
                }
            }
        }
        i = i + 1;
    }
    starts
}

/// The data rows of the five points of the scan starting at entry `start`:
/// for each point, the first row with its timestamp and source.
pub fn match_scan(rows: &Vec<RawDataRow>, entries: &Vec<ScheduleEntry>, start: usize) -> (found: Vec<
    Option<usize>,
>)
    requires
        start + 5 <= entries.len(),
    ensures
        found.len() == 5,
        forall|k: int|
            0 <= k < 5 ==> match #[trigger] found@[k] {
                Some(r) => lookup(
                    rows_view(rows@),
                    entries@[start + k].time,
                    entries@[start + k].source@,
                ) == Some(r as int),
                None => lookup(
                    rows_view(rows@),
                    entries@[start + k].time,
                    entries@[start + k].source@,
                ) is None,
            },
{
    let mut found: Vec<Option<usize>> = Vec::new();
    let mut k: usize = 0;
    while k < 5
        invariant
            start + 5 <= entries.len(),
            k <= 5,
            found.len() == k,
            forall|j: int|
                0 <= j < k ==> match #[trigger] found@[j] {
                    Some(r) => lookup(
                        rows_view(rows@),
                        entries@[start + j].time,
                        entries@[start + j].source@,
                    ) == Some(r as int),
                    None => lookup(
                        rows_view(rows@),
                        entries@[start + j].time,
                        entries@[start + j].source@,
                    ) is None,
                },
        decreases 5 - k,
    {
        let e = &entries[start + k];
        let f = find_data_row(rows, e.time, &e.source);
        found.push(f);
        k = k + 1;
    }
    found
}

/// The sign of an offset that is clearly away from zero, and its opposite.
pub open spec fn flip(s: OffsetSign) -> OffsetSign {
    match s {
        OffsetSign::Positive => OffsetSign::Negative,
        OffsetSign::Negative => OffsetSign::Positive,
        other => other,
    }
}

/// Five entries of one source with offsets (a, 0), (0, 0), (-a, 0), (0, b), (0, -b),
/// `a` and `b` each positive or negative, form a five-point scan wherever they stand.
pub proof fn lemma_cross_is_scan(e: Seq<EntrySigns>, i: int, a: OffsetSign, b: OffsetSign)
    requires
        0 <= i && i + 5 <= e.len(),
        a == OffsetSign::Positive || a == OffsetSign::Negative,
        b == OffsetSign::Positive || b == OffsetSign::Negative,
        forall|k: int| 0 <= k < 5 ==> #[trigger] e[i + k].source == e[i].source,
        e[i].az == a && e[i].el == OffsetSign::Zero,
        e[i + 1].az == OffsetSign::Zero && e[i + 1].el == OffsetSign::Zero,
        e[i + 2].az == flip(a) && e[i + 2].el == OffsetSign::Zero,
        e[i + 3].az == OffsetSign::Zero && e[i + 3].el == b,
        e[i + 4].az == OffsetSign::Zero && e[i + 4].el == flip(b),
    ensures
        is_scan_at(e, i),
{
}

/// Whether five entries form a scan depends on those five entries alone, not on
/// where they stand: entries put in front shift the scan by their number, and a
/// window is a scan exactly when it is one on its own.
pub proof fn lemma_scan_position_free(p: Seq<EntrySigns>, e: Seq<EntrySigns>, i: int)
    requires
        0 <= i,
    ensures
        is_scan_at(e, i) <==> is_scan_at(p + e, i + p.len()),
        i + 5 <= e.len() ==> (is_scan_at(e, i) <==> is_scan_at(e.subrange(i, i + 5), 0)),
{
    let q = p + e;
    let n = p.len() as int;
    if 0 <= i && i + 5 <= e.len() {
        assert(q[i + n] == e[i]);
        assert(q[i + n + 1] == e[i + 1]);
        assert(q[i + n + 2] == e[i + 2]);
        assert(q[i + n + 3] == e[i + 3]);
        assert(q[i + n + 4] == e[i + 4]);
        let w = e.subrange(i, i + 5);
        assert(w[0] == e[i]);
        assert(w[1] == e[i + 1]);
        assert(w[2] == e[i + 2]);
        assert(w[3] == e[i + 3]);
        assert(w[4] == e[i + 4]);
        if is_scan_at(e, i) {
            assert forall|k: int| 0 <= k < 5 implies #[trigger] q[i + n + k].source == q[i + n].source by {
                assert(e[i + k].source == e[i].source);
            }
            assert forall|k: int| 0 <= k < 5 implies #[trigger] w[0 + k].source == w[0].source by {
                assert(e[i + k].source == e[i].source);
            }
        }
        if is_scan_at(q, i + n) {
            assert forall|k: int| 0 <= k < 5 implies #[trigger] e[i + k].source == e[i].source by {
                assert(q[i + n + k].source == q[i + n].source);
            }
        }
        if is_scan_at(w, 0) {
            assert forall|k: int| 0 <= k < 5 implies #[trigger] e[i + k].source == e[i].source by {
                assert(w[0 + k].source == w[0].source);
            }
        }
    }
}

} // verus!
