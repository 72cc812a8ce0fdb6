//! Pairing of 32m and 34m scans by source, and the plan of the gain-flux calibration.
use vstd::prelude::*;
use crate::catalog::{
    band_of, calibrator_for, catalog_view, find_flux_calibrator, parse_band, Band, CatalogRow,
    CatalogRowText,
};
use crate::timestamp::strings_view;

verus! {

/// The texts of `s` without repeats, each at its first occurrence.
pub open spec fn distinct(s: Seq<Seq<char>>) -> Seq<Seq<char>>
    decreases s.len(),
{
    if s.len() == 0 {
        seq![]
    } else {
        let r = distinct(s.drop_last());
        if r.contains(s.last()) {
            r
        } else {
            r.push(s.last())
        }
    }
}

/// The positions in `s` that hold `x`, in increasing order.
pub open spec fn indices_of(s: Seq<Seq<char>>, x: Seq<char>) -> Seq<usize>
    decreases s.len(),
{
    if s.len() == 0 {
        seq![]
    } else {
        let r = indices_of(s.drop_last(), x);
        if s.last() == x {
            r.push((s.len() - 1) as usize)
        } else {
            r
        }
    }
}

/// Whether `s` holds `x`.
pub fn contains_string(v: &Vec<String>, x: &String) -> (r: bool)
    ensures
        r == strings_view(v@).contains(x@),
{
    let mut i: usize = 0;
    while i < v.len()
        invariant
            i <= v.len(),
            forall|j: int| 0 <= j < i ==> strings_view(v@)[j] != x@,
        decreases v.len() - i,
    {
        assert(strings_view(v@)[i as int] == v@[i as int]@);
        if v[i] == *x {
            assert(strings_view(v@)[i as int] == x@);
            return true;
        }
        i = i + 1;
    }
    false
}

/// The sources of `v`, each once, in order of first appearance.
pub fn distinct_sources(v: &Vec<String>) -> (r: Vec<String>)
    ensures
        strings_view(r@) == distinct(strings_view(v@)),
{
    let ghost s = strings_view(v@);
    let mut r: Vec<String> = Vec::new();
    let mut i: usize = 0;
    assert(s.take(0) =~= Seq::<Seq<char>>::empty());
    while i < v.len()
        invariant
            i <= v.len(),
            s == strings_view(v@),
            strings_view(r@) == distinct(s.take(i as int)),
        decreases v.len() - i,
    {
        assert(s.take(i + 1).drop_last() =~= s.take(i as int));
        assert(s.take(i + 1).last() == v@[i as int]@);
        if !contains_string(&r, &v[i]) {
            let ghost before = r@;
            r.push(v[i].clone());
            assert(strings_view(r@) =~= strings_view(before).push(v@[i as int]@));
        }
        i = i + 1;
    }
    assert(s.take(v.len() as int) =~= s);
    r
}

/// Positions in `v` that hold `source`, in increasing order.
pub fn indices_with_source(v: &Vec<String>, source: &String) -> (r: Vec<usize>)
    ensures
        r@ == indices_of(strings_view(v@), source@),
        forall|k: int| 0 <= k < r.len() ==> #[trigger] r@[k] < v.len(),
{
    let ghost s = strings_view(v@);
    let mut r: Vec<usize> = Vec::new();
    let mut i: usize = 0;
    assert(s.take(0) =~= Seq::<Seq<char>>::empty());
    while i < v.len()
        invariant
            i <= v.len(),
            s == strings_view(v@),
            r@ == indices_of(s.take(i as int), source@),
            forall|k: int| 0 <= k < r.len() ==> #[trigger] r@[k] < i,
        decreases v.len() - i,
    {
        assert(s.take(i + 1).drop_last() =~= s.take(i as int));
        assert(s.take(i + 1).last() == v@[i as int]@);
        if v[i] == *source {
            r.push(i);
        }
        i = i + 1;
    }
    assert(s.take(v.len() as int) =~= s);
    r
}

/// What pairing needs of a scan result: its source, and whether it has both a fit and
/// a centre amplitude.
#[derive(Debug)]
pub struct ScanSummary {
    pub source: String,
    pub complete: bool,
}

pub open spec fn summary_sources(v: Seq<ScanSummary>) -> Seq<Seq<char>> {
    v.map_values(|s: ScanSummary| s.source@)
}

/// What happens to the `i`-th 32m/34m pair of a source.
#[derive(Debug, Clone, Copy, PartialEq, Eq, Structural)]
pub enum PairStep {
    /// One antenna has fewer scans of the source.
    CountMismatch,
    /// One of the two scans has no fit.
    IncompleteFit,
    /// Both scans are complete: their indices among the 32m and the 34m scans.
    Matched(usize, usize),
}

/// The pairs of one source: its 32m scans, its 34m scans and what each pair gives.
#[derive(Debug)]
pub struct SourcePairs {
    pub source: String,
    pub left: Vec<usize>,
    pub right: Vec<usize>,
    pub steps: Vec<PairStep>,
}

pub struct SourcePairsView {
    pub source: Seq<char>,
    pub left: Seq<usize>,
    pub right: Seq<usize>,
    pub steps: Seq<PairStep>,
}

impl View for SourcePairs {
    type V = SourcePairsView;

    open spec fn view(&self) -> SourcePairsView {
        SourcePairsView {
            source: self.source@,
            left: self.left@,
            right: self.right@,
            steps: self.steps@,
        }
    }
}

pub open spec fn pairs_view(v: Seq<SourcePairs>) -> Seq<SourcePairsView> {
    v.map_values(|p: SourcePairs| p@)
}

pub open spec fn pair_step(
    left: Seq<ScanSummary>,
    right: Seq<ScanSummary>,
    l: Seq<usize>,
    r: Seq<usize>,
    i: int,
) -> PairStep {
    if i >= l.len() || i >= r.len() {
        PairStep::CountMismatch
    } else if !left[l[i] as int].complete || !right[r[i] as int].complete {
        PairStep::IncompleteFit
    } else {
        PairStep::Matched(l[i], r[i])
    }
}

/// The pairs of one source: its scans in each list, paired by their rank.
pub open spec fn source_pairs(left: Seq<ScanSummary>, right: Seq<ScanSummary>, source: Seq<char>) -> SourcePairsView {
    let l = indices_of(summary_sources(left), source);
    let r = indices_of(summary_sources(right), source);
    SourcePairsView {
        source,
        left: l,
        right: r,
        steps: Seq::new(
            if l.len() >= r.len() {
                l.len()
            } else {
                r.len()
            },
            |i: int| pair_step(left, right, l, r, i),
        ),
    }
}

/// The positions of the completed scans of `source`, in increasing order.
pub open spec fn completed_of(v: Seq<ScanSummary>, source: Seq<char>) -> Seq<usize>
    decreases v.len(),
{
    if v.len() == 0 {
        seq![]
    } else {
        let r = completed_of(v.drop_last(), source);
        if v.last().source@ == source && v.last().complete {
            r.push((v.len() - 1) as usize)
        } else {
            r
        }
    }
}

/// Positions of the completed scans of `source`, in increasing order.
pub fn completed_scans_of(v: &Vec<ScanSummary>, source: &String) -> (r: Vec<usize>)
    ensures
        r@ == completed_of(v@, source@),
        forall|k: int| 0 <= k < r.len() ==> #[trigger] r@[k] < v.len(),
{
    let mut r: Vec<usize> = Vec::new();
    let mut i: usize = 0;
    assert(v@.take(0) =~= Seq::<ScanSummary>::empty());
    while i < v.len()
        invariant
            i <= v.len(),
            r@ == completed_of(v@.take(i as int), source@),
            forall|k: int| 0 <= k < r.len() ==> #[trigger] r@[k] < i,
        decreases v.len() - i,
    {
        assert(v@.take(i + 1).drop_last() =~= v@.take(i as int));
        assert(v@.take(i + 1).last() == v@[i as int]);
        if v[i].complete && v[i].source == *source {
            r.push(i);
        }
        i = i + 1;
    }
    assert(v@.take(v.len() as int) =~= v@);
    r
}

/// Every source of the 32m then the 34m scans, once, with its pairs.
pub open spec fn plan_of_pairs(left: Seq<ScanSummary>, right: Seq<ScanSummary>) -> Seq<SourcePairsView> {
    distinct(summary_sources(left) + summary_sources(right)).map_values(
        |s: Seq<char>| source_pairs(left, right, s),
    )
}

fn sources_of(v: &Vec<ScanSummary>) -> (r: Vec<String>)
    ensures
        strings_view(r@) == summary_sources(v@),
{
    let mut r: Vec<String> = Vec::new();
    let mut i: usize = 0;
    while i < v.len()
        invariant
            i <= v.len(),
            strings_view(r@) == summary_sources(v@).take(i as int),
        decreases v.len() - i,
    {
        let ghost before = r@;
        r.push(v[i].source.clone());
        assert(strings_view(r@) =~= strings_view(before).push(v@[i as int].source@));
        i = i + 1;
        assert(strings_view(r@) =~= summary_sources(v@).take(i as int));
    }
    assert(summary_sources(v@).take(v.len() as int) =~= summary_sources(v@));
    r
}

fn pairs_for(left: &Vec<ScanSummary>, right: &Vec<ScanSummary>, ls: &Vec<String>, rs: &Vec<String>, source: &String) -> (p: SourcePairs)
    requires
        strings_view(ls@) == summary_sources(left@),
        strings_view(rs@) == summary_sources(right@),
    ensures
        p@ == source_pairs(left@, right@, source@),
{
    let l = indices_with_source(ls, source);
    let r = indices_with_source(rs, source);
    let n = if l.len() >= r.len() {
        l.len()
    } else {
        r.len()
    };
    let mut steps: Vec<PairStep> = Vec::new();
    let mut i: usize = 0;
    while i < n
        invariant
            i <= n,
            n == (if l.len() >= r.len() { l.len() } else { r.len() }),
            strings_view(ls@) == summary_sources(left@),
            strings_view(rs@) == summary_sources(right@),
            forall|k: int| 0 <= k < l.len() ==> #[trigger] l@[k] < left.len(),
            forall|k: int| 0 <= k < r.len() ==> #[trigger] r@[k] < right.len(),
            steps.len() == i,
            forall|k: int| 0 <= k < i ==> #[trigger] steps@[k] == pair_step(left@, right@, l@, r@, k),
        decreases n - i,
    {
        let step = if i >= l.len() || i >= r.len() {
            PairStep::CountMismatch
        } else if !left[l[i]].complete || !right[r[i]].complete {
            PairStep::IncompleteFit
        } else {
            PairStep::Matched(l[i], r[i])
        };
        steps.push(step);
        i = i + 1;
    }
    let p = SourcePairs { source: source.clone(), left: l, right: r, steps };
    assert(p@.steps =~= source_pairs(left@, right@, source@).steps);
    p
}

/// Groups the 32m (`left`) and 34m (`right`) scans by source and pairs them by rank.
pub fn plan_pairs(left: &Vec<ScanSummary>, right: &Vec<ScanSummary>) -> (plan: Vec<SourcePairs>)
    ensures
        pairs_view(plan@) == plan_of_pairs(left@, right@),
{
    let ls = sources_of(left);
    let rs = sources_of(right);
    let mut all = ls.clone();
    let mut more = rs.clone();
    all.append(&mut more);
    assert(strings_view(all@) =~= summary_sources(left@) + summary_sources(right@));
    let sources = distinct_sources(&all);
    let ghost d = distinct(summary_sources(left@) + summary_sources(right@));
    let mut plan: Vec<SourcePairs> = Vec::new();
    let mut i: usize = 0;
    while i < sources.len()
        invariant
            i <= sources.len(),
            strings_view(sources@) == d,
            d == distinct(summary_sources(left@) + summary_sources(right@)),
            strings_view(ls@) == summary_sources(left@),
            strings_view(rs@) == summary_sources(right@),
            pairs_view(plan@) == plan_of_pairs(left@, right@).take(i as int),
        decreases sources.len() - i,
    {
        assert(strings_view(sources@)[i as int] == sources@[i as int]@);
        let p = pairs_for(left, right, &ls, &rs, &sources[i]);
        let ghost before = plan@;
        plan.push(p);
        assert(pairs_view(plan@) =~= pairs_view(before).push(p@));
        i = i + 1;
        assert(pairs_view(plan@) =~= plan_of_pairs(left@, right@).take(i as int));
    }
    assert(plan_of_pairs(left@, right@).take(sources.len() as int) =~= plan_of_pairs(left@, right@));
    plan
}

/// The texts of `s` that the catalogue knows (`known`) or does not know (`!known`), in order.
pub open spec fn by_catalogue(s: Seq<Seq<char>>, rows: Seq<CatalogRowText>, known: bool) -> Seq<
    Seq<char>,
>
    decreases s.len(),
{
    if s.len() == 0 {
        seq![]
    } else {
        let r = by_catalogue(s.drop_last(), rows, known);
        if (calibrator_for(rows, s.last()) is Some) == known {
            r.push(s.last())
        } else {
            r
        }
    }
}

/// What the gain calibration can do with the paired sources.
#[derive(Debug)]
pub enum GainPlan {
    /// The frequency is not one of the catalogue's bands (or the catalogue is empty).
    UnknownBand,
    /// No paired source is a catalogue calibrator.
    NoReference,
    /// Every paired source is a catalogue calibrator.
    NoGainSource,
    /// The band of the frequency, and the reference calibrators and gain sources,
    /// each once, in order of first pairing.
    Calibrate { band: Band, references: Vec<String>, gains: Vec<String> },
}

pub enum GainPlanView {
    UnknownBand,
    NoReference,
    NoGainSource,
    Calibrate { band: Band, references: Seq<Seq<char>>, gains: Seq<Seq<char>> },
}

impl View for GainPlan {
    type V = GainPlanView;

    open spec fn view(&self) -> GainPlanView {
        match self {
            GainPlan::UnknownBand => GainPlanView::UnknownBand,
            GainPlan::NoReference => GainPlanView::NoReference,
            GainPlan::NoGainSource => GainPlanView::NoGainSource,
            GainPlan::Calibrate { band, references, gains } => GainPlanView::Calibrate {
                band: *band,
                references: strings_view(references@),
                gains: strings_view(gains@),
            },
        }
    }
}

/// The decisions of the gain calibration before any number is computed.
pub open spec fn gain_plan(
    pair_sources: Seq<Seq<char>>,
    rows: Seq<CatalogRowText>,
    frequency: Seq<char>,
) -> GainPlanView {
    let references = distinct(by_catalogue(pair_sources, rows, true));
    let gains = distinct(by_catalogue(pair_sources, rows, false));
    if rows.len() == 0 || band_of(frequency) is None {
        GainPlanView::UnknownBand
    } else if references.len() == 0 {
        GainPlanView::NoReference
    } else if gains.len() == 0 {
        GainPlanView::NoGainSource
    } else {
        GainPlanView::Calibrate { band: band_of(frequency)->Some_0, references, gains }
    }
}

/// Sorts the sources of the pairs (`pair_sources`, one per pair) into catalogue
/// calibrators and gain sources.
pub fn plan_gain_calibration(
    pair_sources: &Vec<String>,
    catalog: &Vec<CatalogRow>,
    frequency: &str,
) -> (plan: GainPlan)
    ensures
        plan@ == gain_plan(strings_view(pair_sources@), catalog_view(catalog@), frequency@),
{
    let band = match parse_band(frequency) {
        Some(b) => b,
        None => return GainPlan::UnknownBand,
    };
    if catalog.len() == 0 {
        return GainPlan::UnknownBand;
    }
    let ghost s = strings_view(pair_sources@);
    let ghost rows = catalog_view(catalog@);
    let mut references: Vec<String> = Vec::new();
    let mut gains: Vec<String> = Vec::new();
    let mut i: usize = 0;
    assert(s.take(0) =~= Seq::<Seq<char>>::empty());
    while i < pair_sources.len()
        invariant
            i <= pair_sources.len(),
            s == strings_view(pair_sources@),
            rows == catalog_view(catalog@),
            strings_view(references@) == distinct(by_catalogue(s.take(i as int), rows, true)),
            strings_view(gains@) == distinct(by_catalogue(s.take(i as int), rows, false)),
        decreases pair_sources.len() - i,
    {
        let ghost t = s.take(i + 1);
        assert(t.drop_last() =~= s.take(i as int));
        assert(t.last() == pair_sources@[i as int]@);
        let source = &pair_sources[i];
        let known = find_flux_calibrator(catalog, source.as_str()).is_some();
        if known {
            assert(by_catalogue(t, rows, true) == by_catalogue(s.take(i as int), rows, true).push(source@));
            assert(by_catalogue(t, rows, false) == by_catalogue(s.take(i as int), rows, false));
            assert(by_catalogue(t, rows, true).drop_last() =~= by_catalogue(s.take(i as int), rows, true));
            if !contains_string(&references, source) {
                let ghost before = references@;
                references.push(source.clone());
                assert(strings_view(references@) =~= strings_view(before).push(source@));
            }
        } else {
            assert(by_catalogue(t, rows, false) == by_catalogue(s.take(i as int), rows, false).push(source@));
            assert(by_catalogue(t, rows, true) == by_catalogue(s.take(i as int), rows, true));
            assert(by_catalogue(t, rows, false).drop_last() =~= by_catalogue(s.take(i as int), rows, false));
            if !contains_string(&gains, source) {
                let ghost before = gains@;
                gains.push(source.clone());
                assert(strings_view(gains@) =~= strings_view(before).push(source@));
            }
        }
        i = i + 1;
    }
    assert(s.take(pair_sources.len() as int) =~= s);
    if references.len() == 0 {
        GainPlan::NoReference
    } else if gains.len() == 0 {
        GainPlan::NoGainSource
    } else {
        GainPlan::Calibrate { band, references, gains }
    }
}

/// Every text of `s` appears exactly once in `distinct(s)`, and nothing else does.
pub proof fn lemma_distinct(s: Seq<Seq<char>>)
    ensures
        forall|x: Seq<char>| distinct(s).contains(x) <==> s.contains(x),
        forall|i: int, j: int|
            0 <= i < j < distinct(s).len() ==> distinct(s)[i] != distinct(s)[j],
    decreases s.len(),
{
    if s.len() > 0 {
        let p = s.drop_last();
        lemma_distinct(p);
        assert forall|x: Seq<char>| s.contains(x) <==> (p.contains(x) || x == s.last()) by {
            if s.contains(x) {
                let k = choose|k: int| 0 <= k < s.len() && s[k] == x;
                if k < s.len() - 1 {
                    assert(p[k] == x);
                }
            }
            if p.contains(x) {
                let k = choose|k: int| 0 <= k < p.len() && p[k] == x;
                assert(s[k] == x);
            }
            if x == s.last() {
                assert(s[s.len() - 1] == x);
            }
        }
        let r = distinct(p);
        if !r.contains(s.last()) {
            assert forall|x: Seq<char>| r.push(s.last()).contains(x) <==> (r.contains(x) || x == s.last()) by {
                if r.push(s.last()).contains(x) {
                    let k = choose|k: int| 0 <= k < r.len() + 1 && r.push(s.last())[k] == x;
                    if k < r.len() {
                        assert(r[k] == x);
                    }
                }
                if r.contains(x) {
                    let k = choose|k: int| 0 <= k < r.len() && r[k] == x;
                    assert(r.push(s.last())[k] == x);
                }
                if x == s.last() {
                    assert(r.push(s.last())[r.len() as int] == x);
                }
            }
            assert forall|i: int, j: int| 0 <= i < j < r.len() + 1 implies r.push(s.last())[i] != r.push(
                s.last(),
            )[j] by {
                if j == r.len() {
                    assert(r.push(s.last())[i] == r[i]);
                    assert(r.contains(r[i]));
                }
            }
        }
    } else {
        assert forall|x: Seq<char>| distinct(s).contains(x) <==> s.contains(x) by {}
    }
}

/// The pair plan lists each source of the 32m and 34m scans once, and no other.
pub proof fn lemma_pairs_cover_sources(left: Seq<ScanSummary>, right: Seq<ScanSummary>)
    ensures
        forall|x: Seq<char>|
            (exists|k: int| 0 <= k < plan_of_pairs(left, right).len() && #[trigger] plan_of_pairs(left, right)[k].source == x)
                <==> (summary_sources(left) + summary_sources(right)).contains(x),
        forall|i: int, j: int|
            0 <= i < j < plan_of_pairs(left, right).len() ==> plan_of_pairs(left, right)[i].source
                != plan_of_pairs(left, right)[j].source,
{
    let all = summary_sources(left) + summary_sources(right);
    lemma_distinct(all);
    let d = distinct(all);
    let plan = plan_of_pairs(left, right);
    assert forall|k: int| 0 <= k < plan.len() implies #[trigger] plan[k].source == d[k] by {}
    assert forall|x: Seq<char>|
        (exists|k: int| 0 <= k < plan.len() && #[trigger] plan[k].source == x) <==> all.contains(x) by {
        if exists|k: int| 0 <= k < plan.len() && #[trigger] plan[k].source == x {
            let k = choose|k: int| 0 <= k < plan.len() && #[trigger] plan[k].source == x;
            assert(d[k] == x);
            assert(d.contains(x));
        }
        if all.contains(x) {
            assert(d.contains(x));
            let k = choose|k: int| 0 <= k < d.len() && d[k] == x;
            assert(plan[k].source == x);
        }
    }
}

proof fn lemma_by_catalogue_one(s: Seq<Seq<char>>, rows: Seq<CatalogRowText>, known: bool, x: Seq<char>)
    ensures
        by_catalogue(s, rows, known).contains(x) <==> (s.contains(x) && ((calibrator_for(rows, x) is Some)
            == known)),
    decreases s.len(),
{
    if s.len() > 0 {
        let p = s.drop_last();
        lemma_by_catalogue_one(p, rows, known, x);
        let r = by_catalogue(p, rows, known);
        if s.contains(x) {
            let k = choose|k: int| 0 <= k < s.len() && s[k] == x;
            if k < s.len() - 1 {
                assert(p[k] == x);
            }
        }
        if p.contains(x) {
            let k = choose|k: int| 0 <= k < p.len() && p[k] == x;
            assert(s[k] == x);
        }
        if x == s.last() {
            assert(s[s.len() - 1] == x);
        }
        if (calibrator_for(rows, s.last()) is Some) == known {
            let q = r.push(s.last());
            if q.contains(x) {
                let k = choose|k: int| 0 <= k < q.len() && q[k] == x;
                if k < r.len() {
                    assert(r[k] == x);
                }
            }
            if r.contains(x) {
                let k = choose|k: int| 0 <= k < r.len() && r[k] == x;
                assert(q[k] == x);
            }
            if x == s.last() {
                assert(q[r.len() as int] == x);
            }
        }
    }
}

pub proof fn lemma_by_catalogue(s: Seq<Seq<char>>, rows: Seq<CatalogRowText>, known: bool)
    ensures
        forall|x: Seq<char>|
            #[trigger] by_catalogue(s, rows, known).contains(x) <==> (s.contains(x) && ((calibrator_for(
                rows,
                x,
            ) is Some) == known)),
{
    assert forall|x: Seq<char>|
        #[trigger] by_catalogue(s, rows, known).contains(x) <==> (s.contains(x) && ((calibrator_for(
            rows,
            x,
        ) is Some) == known)) by {
        lemma_by_catalogue_one(s, rows, known, x);
    }
}

/// When the calibration goes ahead, the reference calibrators are exactly the paired
/// sources that the catalogue knows and the gain sources exactly the others, each
/// listed once; no source is both.
pub proof fn lemma_gain_plan_partition(
    pair_sources: Seq<Seq<char>>,
    rows: Seq<CatalogRowText>,
    frequency: Seq<char>,
)
    ensures
        gain_plan(pair_sources, rows, frequency) matches GainPlanView::Calibrate { references, gains, .. } ==> {
            &&& forall|x: Seq<char>|
                references.contains(x) <==> (pair_sources.contains(x) && calibrator_for(rows, x) is Some)
            &&& forall|x: Seq<char>|
                gains.contains(x) <==> (pair_sources.contains(x) && calibrator_for(rows, x) is None)
            &&& forall|i: int, j: int| 0 <= i < j < references.len() ==> references[i] != references[j]
            &&& forall|i: int, j: int| 0 <= i < j < gains.len() ==> gains[i] != gains[j]
        },
{
    let kr = by_catalogue(pair_sources, rows, true);
    let kg = by_catalogue(pair_sources, rows, false);
    lemma_by_catalogue(pair_sources, rows, true);
    lemma_by_catalogue(pair_sources, rows, false);
    lemma_distinct(kr);
    lemma_distinct(kg);
    assert forall|x: Seq<char>|
        distinct(kr).contains(x) <==> (pair_sources.contains(x) && calibrator_for(rows, x) is Some) by {
        assert(distinct(kr).contains(x) <==> kr.contains(x));
        assert(kr.contains(x) <==> (pair_sources.contains(x) && ((calibrator_for(rows, x) is Some) == true)));
    }
    assert forall|x: Seq<char>|
        distinct(kg).contains(x) <==> (pair_sources.contains(x) && calibrator_for(rows, x) is None) by {
        assert(distinct(kg).contains(x) <==> kg.contains(x));
        assert(kg.contains(x) <==> (pair_sources.contains(x) && ((calibrator_for(rows, x) is Some) == false)));
    }
}

/// Whether the plan has an entry for `x`.
pub open spec fn lists_source(plan: Seq<SourcePairsView>, x: Seq<char>) -> bool {
    exists|k: int| 0 <= k < plan.len() && #[trigger] plan[k].source == x
}

/// A pair step seen from the other antenna's side.
pub open spec fn swap_step(s: PairStep) -> PairStep {
    match s {
        PairStep::Matched(a, b) => PairStep::Matched(b, a),
        other => other,
    }
}

/// The pairs of a source seen from the other antenna's side.
pub open spec fn swapped(p: SourcePairsView) -> SourcePairsView {
    SourcePairsView {
        source: p.source,
        left: p.right,
        right: p.left,
        steps: p.steps.map_values(|s: PairStep| swap_step(s)),
    }
}

proof fn lemma_source_pairs_swap(left: Seq<ScanSummary>, right: Seq<ScanSummary>, x: Seq<char>)
    ensures
        source_pairs(right, left, x) == swapped(source_pairs(left, right, x)),
{
    let a = source_pairs(left, right, x);
    let b = source_pairs(right, left, x);
    assert(b.steps =~= a.steps.map_values(|s: PairStep| swap_step(s)));
}

/// Pairing is symmetric: with the two antennas' scans swapped, the plan lists the
/// same sources, and each source's pairs have the two scan lists swapped and every
/// matched pair turned round; mismatches and incomplete fits stay where they were.
pub proof fn lemma_pairs_symmetric(left: Seq<ScanSummary>, right: Seq<ScanSummary>)
    ensures
        forall|x: Seq<char>|
            #![trigger lists_source(plan_of_pairs(left, right), x)]
            #![trigger lists_source(plan_of_pairs(right, left), x)]
            lists_source(plan_of_pairs(left, right), x) <==> lists_source(plan_of_pairs(right, left), x),
        forall|k: int, j: int|
            0 <= k < plan_of_pairs(left, right).len() && 0 <= j < plan_of_pairs(right, left).len()
                && #[trigger] plan_of_pairs(left, right)[k].source == #[trigger] plan_of_pairs(right, left)[j].source
                ==> plan_of_pairs(right, left)[j] == swapped(plan_of_pairs(left, right)[k]),
{
    lemma_pairs_cover_sources(left, right);
    lemma_pairs_cover_sources(right, left);
    let lr = summary_sources(left) + summary_sources(right);
    let rl = summary_sources(right) + summary_sources(left);
    assert forall|x: Seq<char>| lr.contains(x) <==> rl.contains(x) by {
        let sl = summary_sources(left);
        let sr = summary_sources(right);
        if lr.contains(x) {
            let i = choose|i: int| 0 <= i < lr.len() && lr[i] == x;
            if i < sl.len() {
                assert(rl[sr.len() + i] == x);
            } else {
                assert(rl[i - sl.len()] == x);
            }
        }
        if rl.contains(x) {
            let i = choose|i: int| 0 <= i < rl.len() && rl[i] == x;
            if i < sr.len() {
                assert(lr[sl.len() + i] == x);
            } else {
                assert(lr[i - sr.len()] == x);
            }
        }
    }
    assert forall|x: Seq<char>|
        lists_source(plan_of_pairs(left, right), x) <==> lists_source(plan_of_pairs(right, left), x) by {
        assert(lists_source(plan_of_pairs(left, right), x) <==> lr.contains(x));
        assert(lists_source(plan_of_pairs(right, left), x) <==> rl.contains(x));
    }
    assert forall|k: int, j: int|
        0 <= k < plan_of_pairs(left, right).len() && 0 <= j < plan_of_pairs(right, left).len()
            && #[trigger] plan_of_pairs(left, right)[k].source == #[trigger] plan_of_pairs(right, left)[j].source
            implies plan_of_pairs(right, left)[j] == swapped(plan_of_pairs(left, right)[k]) by {
        let x = plan_of_pairs(left, right)[k].source;
        assert(plan_of_pairs(left, right)[k] == source_pairs(left, right, distinct(lr)[k]));
        assert(plan_of_pairs(right, left)[j] == source_pairs(right, left, distinct(rl)[j]));
        lemma_source_pairs_swap(left, right, x);
    }
}

/// `indices_of(s, x)` lists, in increasing order, exactly the positions of `s` holding `x`.
pub proof fn lemma_indices_of(s: Seq<Seq<char>>, x: Seq<char>)
    requires
        s.len() <= usize::MAX,
    ensures
        forall|k: int| 0 <= k < indices_of(s, x).len() ==> #[trigger] indices_of(s, x)[k] < s.len()
            && s[indices_of(s, x)[k] as int] == x,
        forall|k: int, j: int|
            0 <= k < j < indices_of(s, x).len() ==> indices_of(s, x)[k] < indices_of(s, x)[j],
        forall|i: int| 0 <= i < s.len() && s[i] == x ==> indices_of(s, x).contains(i as usize),
    decreases s.len(),
{
    if s.len() > 0 {
        let p = s.drop_last();
        lemma_indices_of(p, x);
        let r = indices_of(p, x);
        let t = indices_of(s, x);
        if s.last() == x {
            assert(t == r.push((s.len() - 1) as usize));
        } else {
            assert(t == r);
        }
        assert forall|i: int| 0 <= i < p.len() implies #[trigger] p[i] == s[i] by {}
        assert forall|k: int| 0 <= k < t.len() implies #[trigger] t[k] < s.len() && s[t[k] as int] == x by {
            if k < r.len() {
                assert(t[k] == r[k]);
                assert(p[r[k] as int] == x);
            }
        }
        assert forall|k: int, j: int| 0 <= k < j < t.len() implies t[k] < t[j] by {
            if j < r.len() {
                assert(t[k] == r[k] && t[j] == r[j]);
            } else {
                assert(t[k] == r[k]);
                assert(r[k] < p.len());
            }
        }
        assert forall|i: int| 0 <= i < s.len() && s[i] == x implies indices_of(s, x).contains(i as usize) by {
            if i < s.len() - 1 {
                assert(p[i] == x);
                let k = choose|k: int| 0 <= k < r.len() && r[k] == i as usize;
                assert(indices_of(s, x)[k] == i as usize);
            } else {
                assert(indices_of(s, x)[r.len() as int] == i as usize);
            }
        }
    }
}
proof fn lemma_source_pairs_by_rank(left: Seq<ScanSummary>, right: Seq<ScanSummary>, x: Seq<char>)
    requires
        left.len() <= usize::MAX,
        right.len() <= usize::MAX,
    ensures
        ({
            let p = source_pairs(left, right, x);
            &&& p.source == x
            &&& forall|j: int| 0 <= j < p.left.len() ==> #[trigger] p.left[j] < left.len()
                && left[p.left[j] as int].source@ == p.source
            &&& forall|j: int, m: int| 0 <= j < m < p.left.len() ==> p.left[j] < p.left[m]
            &&& forall|i: int| 0 <= i < left.len() && left[i].source@ == p.source ==> p.left.contains(i as usize)
            &&& forall|j: int| 0 <= j < p.right.len() ==> #[trigger] p.right[j] < right.len()
                && right[p.right[j] as int].source@ == p.source
            &&& forall|j: int, m: int| 0 <= j < m < p.right.len() ==> p.right[j] < p.right[m]
            &&& forall|i: int| 0 <= i < right.len() && right[i].source@ == p.source ==> p.right.contains(i as usize)
            &&& p.steps.len() == if p.left.len() >= p.right.len() { p.left.len() } else { p.right.len() }
            &&& forall|i: int| 0 <= i < p.steps.len() ==> #[trigger] p.steps[i] == if i < p.left.len() && i < p.right.len() {
                if left[p.left[i] as int].complete && right[p.right[i] as int].complete {
                    PairStep::Matched(p.left[i], p.right[i])
                } else {
                    PairStep::IncompleteFit
                }
            } else {
                PairStep::CountMismatch
            }
        }),
{
    let p = source_pairs(left, right, x);
    lemma_indices_of(summary_sources(left), x);
    lemma_indices_of(summary_sources(right), x);
    assert forall|i: int| 0 <= i < left.len() implies #[trigger] summary_sources(left)[i] == left[i].source@ by {}
    assert forall|i: int| 0 <= i < right.len() implies #[trigger] summary_sources(right)[i] == right[i].source@ by {}
    assert forall|j: int| 0 <= j < p.left.len() implies #[trigger] p.left[j] < left.len()
        && left[p.left[j] as int].source@ == p.source by {
        assert(summary_sources(left)[p.left[j] as int] == x);
    }
    assert forall|j: int| 0 <= j < p.right.len() implies #[trigger] p.right[j] < right.len()
        && right[p.right[j] as int].source@ == p.source by {
        assert(summary_sources(right)[p.right[j] as int] == x);
    }
    assert forall|i: int| 0 <= i < left.len() && left[i].source@ == p.source implies p.left.contains(i as usize) by {
        assert(summary_sources(left)[i] == x);
    }
    assert forall|i: int| 0 <= i < right.len() && right[i].source@ == p.source implies p.right.contains(i as usize) by {
        assert(summary_sources(right)[i] == x);
    }
}

/// Pairing by rank. For every source of the plan, `left` and `right` list in order
/// exactly that source's 32m and 34m scans. Pair `i` of two ranks that both exist is
/// `Matched` with the two scans when both are complete and `IncompleteFit` otherwise;
/// only ranks past the shorter list are `CountMismatch`; there are as many pairs as
/// the longer list has scans.
pub proof fn lemma_pairs_by_rank(left: Seq<ScanSummary>, right: Seq<ScanSummary>)
    requires
        left.len() <= usize::MAX,
        right.len() <= usize::MAX,
    ensures
        forall|k: int|
            0 <= k < plan_of_pairs(left, right).len() ==> {
                let p = #[trigger] plan_of_pairs(left, right)[k];
                &&& forall|j: int| 0 <= j < p.left.len() ==> #[trigger] p.left[j] < left.len()
                    && left[p.left[j] as int].source@ == p.source
                &&& forall|j: int, m: int| 0 <= j < m < p.left.len() ==> p.left[j] < p.left[m]
                &&& forall|i: int| 0 <= i < left.len() && left[i].source@ == p.source ==> p.left.contains(i as usize)
                &&& forall|j: int| 0 <= j < p.right.len() ==> #[trigger] p.right[j] < right.len()
                    && right[p.right[j] as int].source@ == p.source
                &&& forall|j: int, m: int| 0 <= j < m < p.right.len() ==> p.right[j] < p.right[m]
                &&& forall|i: int| 0 <= i < right.len() && right[i].source@ == p.source ==> p.right.contains(i as usize)
                &&& p.steps.len() == if p.left.len() >= p.right.len() { p.left.len() } else { p.right.len() }
                &&& forall|i: int| 0 <= i < p.steps.len() ==> #[trigger] p.steps[i] == if i < p.left.len() && i < p.right.len() {
                    if left[p.left[i] as int].complete && right[p.right[i] as int].complete {
                        PairStep::Matched(p.left[i], p.right[i])
                    } else {
                        PairStep::IncompleteFit
                    }
                } else {
                    PairStep::CountMismatch
                }
            },
{
    let d = distinct(summary_sources(left) + summary_sources(right));
    assert forall|k: int| 0 <= k < plan_of_pairs(left, right).len() implies
        #[trigger] plan_of_pairs(left, right)[k] == source_pairs(left, right, d[k]) by {}
    assert forall|x: Seq<char>| true implies #[trigger] source_pairs(left, right, x).source == x by {
        lemma_source_pairs_by_rank(left, right, x);
    }
    assert forall|k: int| 0 <= k < plan_of_pairs(left, right).len() implies {
        let p = #[trigger] plan_of_pairs(left, right)[k];
        &&& forall|j: int| 0 <= j < p.left.len() ==> #[trigger] p.left[j] < left.len()
            && left[p.left[j] as int].source@ == p.source
        &&& forall|j: int, m: int| 0 <= j < m < p.left.len() ==> p.left[j] < p.left[m]
        &&& forall|i: int| 0 <= i < left.len() && left[i].source@ == p.source ==> p.left.contains(i as usize)
        &&& forall|j: int| 0 <= j < p.right.len() ==> #[trigger] p.right[j] < right.len()
            && right[p.right[j] as int].source@ == p.source
        &&& forall|j: int, m: int| 0 <= j < m < p.right.len() ==> p.right[j] < p.right[m]
        &&& forall|i: int| 0 <= i < right.len() && right[i].source@ == p.source ==> p.right.contains(i as usize)
        &&& p.steps.len() == if p.left.len() >= p.right.len() { p.left.len() } else { p.right.len() }
        &&& forall|i: int| 0 <= i < p.steps.len() ==> #[trigger] p.steps[i] == if i < p.left.len() && i < p.right.len() {
            if left[p.left[i] as int].complete && right[p.right[i] as int].complete {
                PairStep::Matched(p.left[i], p.right[i])
            } else {
                PairStep::IncompleteFit
            }
        } else {
            PairStep::CountMismatch
        }
    } by {
        assert(plan_of_pairs(left, right)[k] == source_pairs(left, right, d[k]));
        lemma_source_pairs_by_rank(left, right, d[k]);
    }
}

/// The gain-calibration refusals are the right ones. The band is refused only for an
/// unknown band or an empty catalogue; `NoReference` only when no paired source is a
/// catalogue calibrator, `NoGainSource` only when every paired source is one; and a
/// known band with a non-empty catalogue, one paired calibrator and one paired
/// non-calibrator always calibrate, with the frequency's band.
pub proof fn lemma_gain_plan_decisions(
    pair_sources: Seq<Seq<char>>,
    rows: Seq<CatalogRowText>,
    frequency: Seq<char>,
)
    ensures
        gain_plan(pair_sources, rows, frequency) is UnknownBand <==> (rows.len() == 0 || band_of(frequency) is None),
        gain_plan(pair_sources, rows, frequency) is NoReference ==> forall|x: Seq<char>|
            pair_sources.contains(x) ==> #[trigger] calibrator_for(rows, x) is None,
        gain_plan(pair_sources, rows, frequency) is NoGainSource ==> forall|x: Seq<char>|
            pair_sources.contains(x) ==> #[trigger] calibrator_for(rows, x) is Some,
        rows.len() > 0 && band_of(frequency) is Some && (exists|x: Seq<char>|
            pair_sources.contains(x) && #[trigger] calibrator_for(rows, x) is Some) && (exists|y: Seq<char>|
            pair_sources.contains(y) && #[trigger] calibrator_for(rows, y) is None)
            ==> (gain_plan(pair_sources, rows, frequency) matches GainPlanView::Calibrate { band, .. }
            && Some(band) == band_of(frequency)),
{
    let kr = by_catalogue(pair_sources, rows, true);
    let kg = by_catalogue(pair_sources, rows, false);
    lemma_by_catalogue(pair_sources, rows, true);
    lemma_by_catalogue(pair_sources, rows, false);
    lemma_distinct(kr);
    lemma_distinct(kg);
    assert forall|x: Seq<char>| pair_sources.contains(x) && calibrator_for(rows, x) is Some implies distinct(kr).contains(x) by {
        assert(kr.contains(x));
    }
    assert forall|x: Seq<char>| pair_sources.contains(x) && calibrator_for(rows, x) is None implies distinct(kg).contains(x) by {
        assert(kg.contains(x));
    }
    assert forall|s: Seq<Seq<char>>, x: Seq<char>| s.contains(x) implies s.len() > 0 by {}
}

} // verus!
