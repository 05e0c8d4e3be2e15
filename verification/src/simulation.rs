//! The interactive cut simulation: disconnect modules one at a time, watch
//! the cascade, restore a cut, and undo the last change.
use vstd::prelude::*;
use crate::idset::IdSet;
use crate::impact::{impact, impact_spec, text_set, ImpactError};
use crate::model::{ImpactResult, ModuleAnalysis};
use crate::order::texts;
use crate::text_util::{owned, str_eq};

verus! {

/// What the simulation shows and can go back to.
pub struct Snapshot {
    unavailable: IdSet,
    origins: Vec<String>,
    reports: Vec<ImpactResult>,
    review: Option<String>,
    selected: Option<String>,
}

/// The plain values of a report.
pub struct ReportView {
    pub removed: Seq<char>,
    pub total_affected: usize,
    pub module_count: usize,
    pub direct_affected: usize,
    pub transitive_affected: usize,
    pub max_cascade_depth: usize,
    pub waves: Seq<Seq<Seq<char>>>,
}

/// A report as plain values.
pub open spec fn report_view(r: ImpactResult) -> ReportView {
    ReportView {
        removed: r.removed_module_id@,
        total_affected: r.total_affected,
        module_count: r.module_count,
        direct_affected: r.direct_affected,
        transitive_affected: r.transitive_affected,
        max_cascade_depth: r.max_cascade_depth,
        waves: r.waves@.map_values(|w: Vec<String>| texts(w@)),
    }
}

/// The plain values of the part of a simulation that undo brings back.
pub struct StateView {
    pub unavailable: Set<Seq<char>>,
    pub origins: Seq<Seq<char>>,
    pub reports: Seq<ReportView>,
    pub review: Option<Seq<char>>,
    pub selected: Option<Seq<char>>,
}

/// An optional text as a plain value.
pub open spec fn opt_view(o: Option<String>) -> Option<Seq<char>> {
    match o {
        Some(s) => Some(s@),
        None => None,
    }
}

/// The reports as plain values.
pub open spec fn reports_view(v: Seq<ImpactResult>) -> Seq<ReportView> {
    v.map_values(|r: ImpactResult| report_view(r))
}

impl Snapshot {
    /// What the snapshot holds.
    pub closed spec fn state(&self) -> StateView {
        StateView {
            unavailable: self.unavailable@,
            origins: texts(self.origins@),
            reports: reports_view(self.reports@),
            review: opt_view(self.review),
            selected: opt_view(self.selected),
        }
    }
}

/// Every identifier listed in some wave of a report.
pub open spec fn wave_ids(r: ImpactResult) -> Set<Seq<char>> {
    Set::new(|s: Seq<char>| exists|w: int, k: int| 0 <= w < r.waves@.len() && 0 <= k < r.waves@[w]@.len() && #[trigger] r.waves@[w]@[k]@ == s)
}

/// The cut simulation over one analysis.
pub struct Simulation {
    /// The modules cut off so far.
    pub unavailable: IdSet,
    /// The modules removed by the user, in order.
    pub origins: Vec<String>,
    /// The finished impact of each origin, in order.
    pub reports: Vec<ImpactResult>,
    /// The origin whose report is shown.
    pub review: Option<String>,
    /// The selected module.
    pub selected: Option<String>,
    /// The cut still playing.
    pub live: Option<ImpactResult>,
    history: Vec<Snapshot>,
}

impl Simulation {
    /// The cut still playing.
    pub closed spec fn playing(&self) -> Option<ImpactResult> {
        self.live
    }

    /// The part of the simulation that undo brings back.
    pub closed spec fn state(&self) -> StateView {
        StateView {
            unavailable: self.unavailable@,
            origins: texts(self.origins@),
            reports: reports_view(self.reports@),
            review: opt_view(self.review),
            selected: opt_view(self.selected),
        }
    }

    /// The states undo can go back to, oldest first.
    pub closed spec fn history(&self) -> Seq<StateView> {
        self.history@.map_values(|s: Snapshot| s.state())
    }

    /// A simulation with nothing cut.
    pub fn new() -> (r: Self)
        ensures
            r.state() == (StateView {
                unavailable: Set::empty(),
                origins: Seq::empty(),
                reports: Seq::empty(),
                review: None,
                selected: None,
            }),
            r.playing() is None,
            r.history() == Seq::<StateView>::empty(),
    {
        let r = Simulation {
            unavailable: IdSet::new(),
            origins: Vec::new(),
            reports: Vec::new(),
            review: None,
            selected: None,
            live: None,
            history: Vec::new(),
        };
        assert(r.state().origins =~= Seq::<Seq<char>>::empty());
        assert(r.state().reports =~= Seq::<ReportView>::empty());
        assert(r.history() =~= Seq::<StateView>::empty());
        r
    }

    fn snapshot(&self) -> (r: Snapshot)
        ensures
            r.state() == self.state(),
    {
        let r = Snapshot {
            unavailable: self.unavailable.copy(),
            origins: copy_texts(&self.origins),
            reports: copy_reports(&self.reports),
            review: copy_opt(&self.review),
            selected: copy_opt(&self.selected),
        };
        r
    }

    /// Whether there is a change to undo: some history, and no cut playing.
    pub fn can_undo(&self) -> (r: bool)
        ensures
            r == (self.history().len() > 0 && self.playing() is None),
    {
        self.history.len() > 0 && self.live.is_none()
    }

    /// Goes back to the state before the last change, unless a cut is
    /// playing or there is nothing to undo.
    pub fn undo(&mut self) -> (r: bool)
        ensures
            r == (old(self).history().len() > 0 && old(self).playing() is None),
            r ==> final(self).state() == old(self).history().last() && final(self).history()
                == old(self).history().drop_last() && final(self).playing() is None,
            !r ==> final(self).state() == old(self).state() && final(self).history() == old(self).history()
                && final(self).playing() == old(self).playing(),
    {
        if self.live.is_some() {
            return false;
        }
        match self.history.pop() {
            Some(s) => {
                proof {
                    assert(old(self).history@ == self.history@.push(s));
                    assert(old(self).history() =~= self.history().push(s.state()));
                }
                self.unavailable = s.unavailable;
                self.origins = s.origins;
                self.reports = s.reports;
                self.review = s.review;
                self.selected = s.selected;
                true
            },
            None => false,
        }
    }

    /// Forgets every cut and all history.
    pub fn reset(&mut self)
        ensures
            final(self).state() == (StateView {
                unavailable: Set::empty(),
                origins: Seq::empty(),
                reports: Seq::empty(),
                review: None,
                selected: None,
            }),
            final(self).playing() is None,
            final(self).history() == Seq::<StateView>::empty(),
    {
        *self = Simulation::new();
    }
}

/// The first report of `id`, if any.
pub open spec fn first_report(reports: Seq<ReportView>, id: Seq<char>) -> Option<ReportView>
    decreases reports.len(),
{
    if reports.len() == 0 {
        None
    } else if reports[0].removed == id {
        Some(reports[0])
    } else {
        first_report(reports.drop_first(), id)
    }
}

/// The report shown: the cut playing, else the reviewed origin's report.
pub open spec fn shown_report(s: Simulation) -> Option<ReportView> {
    match s.playing() {
        Some(r) => Some(report_view(r)),
        None => match s.state().review {
            Some(id) => first_report(s.state().reports, id),
            None => None,
        },
    }
}

/// The texts of a list, as a set, are its members.
proof fn lemma_text_set(v: Seq<String>)
    ensures
        text_set(v) == texts(v).to_set(),
{
    assert forall|s: Seq<char>| text_set(v).contains(s) <==> texts(v).to_set().contains(s) by {
        if text_set(v).contains(s) {
            let i = choose|i: int| 0 <= i < v.len() && #[trigger] v[i]@ == s;
            assert(texts(v)[i] == s);
        }
        if texts(v).to_set().contains(s) {
            let i = choose|i: int| 0 <= i < texts(v).len() && texts(v)[i] == s;
            assert(v[i]@ == s);
        }
    }
    assert(text_set(v) =~= texts(v).to_set());
}

/// `begin` started a cut of `id`: the state before it is remembered, `id` is
/// selected, and its impact plays.
pub open spec fn began(s0: Simulation, s1: Simulation, modules: Seq<ModuleAnalysis>, id: Seq<char>) -> bool {
    &&& s1.history() == s0.history().push(s0.state())
    &&& s1.state() == StateView { selected: Some(id), ..s0.state() }
    &&& s1.playing() matches Some(x) && impact_spec(modules, id, s0.state().unavailable, Ok(x))
}

/// `finish` ended the cut that was playing, if any.
pub open spec fn finished_cut(s1: Simulation, s2: Simulation) -> bool {
    &&& s2.history() == s1.history()
    &&& s2.playing() is None
    &&& match s1.playing() {
        None => s2.state() == s1.state(),
        Some(res) => s2.state() == (StateView {
            unavailable: s1.state().unavailable.union(wave_ids(res)),
            origins: s1.state().origins.push(res.removed_module_id@),
            reports: s1.state().reports.push(report_view(res)),
            review: Some(res.removed_module_id@),
            selected: if s1.state().selected == Some(res.removed_module_id@) {
                None
            } else {
                s1.state().selected
            },
        }),
    }
}

/// `undo` went back one step when it returned `r`.
pub open spec fn undone(s2: Simulation, s3: Simulation, r: bool) -> bool {
    &&& r == (s2.history().len() > 0 && s2.playing() is None)
    &&& r ==> s3.state() == s2.history().last() && s3.history() == s2.history().drop_last() && s3.playing() is None
    &&& !r ==> s3.state() == s2.state() && s3.history() == s2.history() && s3.playing() == s2.playing()
}

impl Simulation {
    /// The report shown, as a copy.
    pub fn report(&self) -> (r: Option<ImpactResult>)
        ensures
            match r {
                Some(x) => shown_report(*self) == Some(report_view(x)),
                None => shown_report(*self) is None,
            },
    {
        match &self.live {
            Some(x) => Some(copy_report(x)),
            None => match &self.review {
                Some(id) => {
                    let mut i: usize = 0;
                    assert(reports_view(self.reports@).skip(0) =~= reports_view(self.reports@));
                    while i < self.reports.len()
                        invariant
                            i <= self.reports.len(),
                            self.review == Some(*id),
                            self.live is None,
                            first_report(reports_view(self.reports@), id@) == first_report(
                                reports_view(self.reports@).skip(i as int),
                                id@,
                            ),
                        decreases self.reports.len() - i,
                    {
                        let ghost rv = reports_view(self.reports@);
                        assert(rv.skip(i as int)[0] == report_view(self.reports@[i as int]));
                        assert(rv.skip(i as int).drop_first() =~= rv.skip(i + 1));
                        if str_eq(self.reports[i].removed_module_id.as_str(), id.as_str()) {
                            assert(rv.skip(i as int)[0].removed == id@);
                            return Some(copy_report(&self.reports[i]));
                        }
                        i += 1;
                    }
                    None
                },
                None => None,
            },
        }
    }

    /// The impact that cutting `id` would have now: none while a cut plays,
    /// when `id` is already cut off, or when the impact fails.
    pub fn preview(&self, modules: &[ModuleAnalysis], id: &str) -> (r: Option<ImpactResult>)
        ensures
            match r {
                Some(x) => !self.state().unavailable.contains(id@) && self.playing() is None && impact_spec(
                    modules@,
                    id@,
                    self.state().unavailable,
                    Ok(x),
                ),
                None => self.state().unavailable.contains(id@) || self.playing() is Some || exists|e: ImpactError|
                    impact_spec(modules@, id@, self.state().unavailable, Err(e)),
            },
    {
        if self.unavailable.contains(id) || self.live.is_some() {
            return None;
        }
        let excluded = self.unavailable.to_vec();
        proof {
            self.unavailable.lemma_view();
            lemma_text_set(excluded@);
        }
        match impact(modules, id, excluded.as_slice()) {
            Ok(x) => Some(x),
            Err(e) => {
                assert(impact_spec(modules@, id@, self.state().unavailable, Err(e)));
                None
            },
        }
    }

    /// Starts cutting `id`, when `preview` gives its impact.
    pub fn begin(&mut self, modules: &[ModuleAnalysis], id: &str) -> (r: bool)
        ensures
            r ==> began(*old(self), *final(self), modules@, id@),
            !r ==> *final(self) == *old(self),
            r == (!old(self).state().unavailable.contains(id@) && old(self).playing() is None && exists|x: ImpactResult|
                impact_spec(modules@, id@, old(self).state().unavailable, Ok(x))),
    {
        let result = match self.preview(modules, id) {
            Some(x) => x,
            None => {
                proof {
                    if !old(self).state().unavailable.contains(id@) && old(self).playing() is None && exists|x: ImpactResult|
                        impact_spec(modules@, id@, old(self).state().unavailable, Ok(x)) {
                        let x = choose|x: ImpactResult| impact_spec(modules@, id@, old(self).state().unavailable, Ok(x));
                        let e = choose|e: ImpactError| impact_spec(modules@, id@, self.state().unavailable, Err(e));
                    }
                }
                return false;
            },
        };
        let snap = self.snapshot();
        self.history.push(snap);
        self.selected = Some(owned(id));
        self.live = Some(result);
        proof {
            assert(self.history() =~= old(self).history().push(old(self).state()));
        }
        true
    }

    /// Ends the cut that is playing: its modules stay cut off, it becomes an
    /// origin with its report, and it is reviewed.
    pub fn finish(&mut self)
        ensures
            finished_cut(*old(self), *final(self)),
    {
        let taken = self.live.take();
        match taken {
            Some(result) => {
                if match &self.selected {
                    Some(s) => str_eq(s.as_str(), result.removed_module_id.as_str()),
                    None => false,
                } {
                    self.selected = None;
                }
                cut_with_report(&mut self.unavailable, &result);
                let ghost origins_before = self.origins@;
                let ghost reports_before = self.reports@;
                self.origins.push(owned(result.removed_module_id.as_str()));
                self.review = Some(owned(result.removed_module_id.as_str()));
                self.reports.push(result);
                proof {
                    assert(texts(self.origins@) =~= texts(origins_before).push(result.removed_module_id@));
                    assert(reports_view(self.reports@) =~= reports_view(reports_before).push(report_view(result)));
                }
            },
            None => {},
        }
    }
}

/// The state after `finish`.
pub open spec fn finish_state(s: Simulation) -> StateView {
    match s.playing() {
        None => s.state(),
        Some(res) => StateView {
            unavailable: s.state().unavailable.union(wave_ids(res)),
            origins: s.state().origins.push(res.removed_module_id@),
            reports: s.state().reports.push(report_view(res)),
            review: Some(res.removed_module_id@),
            selected: if s.state().selected == Some(res.removed_module_id@) {
                None
            } else {
                s.state().selected
            },
        },
    }
}

/// The modules cut off by the first `k` reports.
pub open spec fn cut_before(reports: Seq<ImpactResult>, k: int) -> Set<Seq<char>>
    decreases k,
{
    if k <= 0 {
        Set::empty()
    } else {
        cut_before(reports, k - 1).union(wave_ids(reports[k - 1]))
    }
}

/// The reports are the impacts of the origins, each computed with the modules
/// cut off by the reports before it disconnected, the origin itself excepted.
pub open spec fn rebuilt(modules: Seq<ModuleAnalysis>, origins: Seq<Seq<char>>, reports: Seq<ImpactResult>) -> bool {
    &&& reports.len() <= origins.len()
    &&& forall|j: int|
        0 <= j < reports.len() ==> impact_spec(
            modules,
            origins[j],
            cut_before(reports, j).remove(origins[j]),
            Ok(#[trigger] reports[j]),
        )
}

/// The origins other than `id`, in order.
pub open spec fn without(origins: Seq<Seq<char>>, id: Seq<char>) -> Seq<Seq<char>> {
    origins.filter(|s: Seq<char>| s != id)
}

/// The review after a restore: kept when its origin still has a report,
/// otherwise the last origin's, if any.
pub open spec fn review_after(review: Option<Seq<char>>, reports: Seq<ImpactResult>) -> Option<Seq<char>> {
    if exists|k: int| 0 <= k < reports.len() && Some(#[trigger] reports[k].removed_module_id@) == review {
        review
    } else if reports.len() > 0 {
        Some(reports.last().removed_module_id@)
    } else {
        None
    }
}

/// `restore` succeeded: the state after finishing the cut playing is
/// remembered, and nothing plays.
pub open spec fn restored(s0: Simulation, s1: Simulation) -> bool {
    &&& s1.history() == s0.history().push(finish_state(s0))
    &&& s1.playing() is None
}

impl Simulation {
    /// Restores the origin `id`: the cut playing is finished first when it
    /// belongs to `id` or to another origin; every other origin's impact is
    /// computed again in order, so failures that several cuts share stay.
    pub fn restore(&mut self, modules: &[ModuleAnalysis], id: &str) -> (r: bool)
        ensures
            r ==> restored(*old(self), *final(self)),
            ({
                let live_origin = old(self).playing() matches Some(x) && (old(self).state().origins.contains(id@)
                    || x.removed_module_id@ == id@);
                let mid = finish_state(*old(self));
                let remaining = without(mid.origins, id@);
                if old(self).playing() is Some && !live_origin {
                    !r && *final(self) == *old(self)
                } else if !mid.origins.contains(id@) {
                    !r && final(self).state() == mid && final(self).history() == old(self).history()
                        && final(self).playing() is None
                } else if r {
                    &&& final(self).history() == old(self).history().push(mid)
                    &&& final(self).playing() is None
                    &&& exists|reps: Seq<ImpactResult>| {
                        &&& #[trigger] rebuilt(modules@, remaining, reps)
                        &&& reps.len() == remaining.len()
                        &&& final(self).state() == (StateView {
                            unavailable: cut_before(reps, reps.len() as int),
                            origins: remaining,
                            reports: reports_view(reps),
                            review: review_after(mid.review, reps),
                            selected: mid.selected,
                        })
                    }
                } else {
                    &&& final(self).state() == mid
                    &&& final(self).history() == old(self).history()
                    &&& final(self).playing() is None
                    &&& exists|reps: Seq<ImpactResult>| {
                        &&& #[trigger] rebuilt(modules@, remaining, reps)
                        &&& reps.len() < remaining.len()
                        &&& exists|e: ImpactError| impact_spec(
                            modules@,
                            remaining[reps.len() as int],
                            cut_before(reps, reps.len() as int).remove(remaining[reps.len() as int]),
                            Err(e),
                        )
                    }
                }
            }),
    {
        let ghost s0 = *old(self);
        let is_origin = match &self.live {
            Some(x) => holds(&self.origins, id) || str_eq(x.removed_module_id.as_str(), id),
            None => true,
        };
        if !is_origin {
            return false;
        }
        if self.live.is_some() {
            self.finish();
        }
        let ghost mid = finish_state(s0);
        assert(self.state() == mid);
        assert(self.history() == s0.history());
        if !holds(&self.origins, id) {
            return false;
        }
        let remaining = without_id(&self.origins, id);
        match rebuild(modules, &remaining) {
            None => false,
            Some((cut, reports)) => {
                let snap = self.snapshot();
                self.history.push(snap);
                proof {
                    assert(self.history() =~= s0.history().push(mid));
                }
                self.review = review_fix(&self.review, &reports);
                self.origins = remaining;
                self.unavailable = cut;
                self.reports = reports;
                proof {
                    assert(self.history() == s0.history().push(mid));
                    assert(rebuilt(modules@, without(mid.origins, id@), reports@));
                }
                true
            },
        }
    }
}

/// Adds every module of the report's waves to the cut.
fn cut_with_report(cut: &mut IdSet, report: &ImpactResult)
    ensures
        final(cut)@ == old(cut)@.union(wave_ids(*report)),
{
    let ghost before_cut = cut@;
    let mut w: usize = 0;
    while w < report.waves.len()
        invariant
            w <= report.waves.len(),
            cut@ == before_cut.union(Set::new(|s: Seq<char>| exists|x: int, y: int| 0 <= x < w && 0 <= y < report.waves@[x]@.len() && #[trigger] report.waves@[x]@[y]@ == s)),
        decreases report.waves.len() - w,
    {
        let wave = &report.waves[w];
        let ghost done = Set::new(|s: Seq<char>| exists|x: int, z: int| 0 <= x < w && 0 <= z < report.waves@[x]@.len() && #[trigger] report.waves@[x]@[z]@ == s);
        let mut y: usize = 0;
        while y < wave.len()
            invariant
                w < report.waves.len(),
                *wave == report.waves@[w as int],
                y <= wave.len(),
                cut@ == before_cut.union(done).union(Set::new(|s: Seq<char>| exists|z: int| 0 <= z < y && #[trigger] wave@[z]@ == s)),
            decreases wave.len() - y,
        {
            cut.insert(wave[y].as_str());
            proof {
                let old_part = Set::new(|s: Seq<char>| exists|z: int| 0 <= z < y && #[trigger] wave@[z]@ == s);
                let new_part = Set::new(|s: Seq<char>| exists|z: int| 0 <= z < y + 1 && #[trigger] wave@[z]@ == s);
                assert(new_part =~= old_part.insert(wave@[y as int]@)) by {
                    assert forall|s: Seq<char>| new_part.contains(s) implies old_part.insert(wave@[y as int]@).contains(s) by {
                        let z = choose|z: int| 0 <= z < y + 1 && #[trigger] wave@[z]@ == s;
                        if z < y {
                            assert(old_part.contains(s));
                        }
                    }
                    assert forall|s: Seq<char>| old_part.contains(s) implies new_part.contains(s) by {
                        let z = choose|z: int| 0 <= z < y && #[trigger] wave@[z]@ == s;
                        assert(wave@[z]@ == s);
                    }
                }
                assert(cut@ =~= before_cut.union(done).union(new_part));
            }
            y += 1;
        }
        proof {
            let part = Set::new(|s: Seq<char>| exists|z: int| 0 <= z < wave.len() && #[trigger] wave@[z]@ == s);
            let next = Set::new(|s: Seq<char>| exists|x: int, z: int| 0 <= x < w + 1 && 0 <= z < report.waves@[x]@.len() && #[trigger] report.waves@[x]@[z]@ == s);
            assert(next =~= done.union(part)) by {
                assert forall|s: Seq<char>| next.contains(s) implies done.union(part).contains(s) by {
                    let (x, z) = choose|x: int, z: int| 0 <= x < w + 1 && 0 <= z < report.waves@[x]@.len() && #[trigger] report.waves@[x]@[z]@ == s;
                    if x < w {
                        assert(done.contains(s));
                    } else {
                        assert(wave@[z]@ == s);
                    }
                }
                assert forall|s: Seq<char>| done.union(part).contains(s) implies next.contains(s) by {
                    if done.contains(s) {
                        let (x, z) = choose|x: int, z: int| 0 <= x < w && 0 <= z < report.waves@[x]@.len() && #[trigger] report.waves@[x]@[z]@ == s;
                        assert(report.waves@[x]@[z]@ == s);
                    } else {
                        let z = choose|z: int| 0 <= z < wave.len() && #[trigger] wave@[z]@ == s;
                        assert(report.waves@[w as int]@[z]@ == s);
                    }
                }
            }
            assert(cut@ =~= before_cut.union(next));
        }
        w += 1;
    }
    proof {
        let all_ids = Set::new(|s: Seq<char>| exists|x: int, z: int| 0 <= x < report.waves@.len() && 0 <= z < report.waves@[x]@.len() && #[trigger] report.waves@[x]@[z]@ == s);
        assert(all_ids =~= wave_ids(*report));
    }
}

/// The identifiers in the cut other than `origin`, as a list.
fn excluding(cut: &IdSet, origin: &str) -> (r: Vec<String>)
    ensures
        text_set(r@) == cut@.remove(origin@),
{
    let all = cut.to_vec();
    let mut excluded: Vec<String> = Vec::new();
    let mut a: usize = 0;
    while a < all.len()
        invariant
            a <= all.len(),
            forall|s: Seq<char>| text_set(excluded@).contains(s) <==> (text_set(all@.take(a as int)).contains(s) && s != origin@),
        decreases all.len() - a,
    {
        let ghost before = excluded@;
        if !str_eq(all[a].as_str(), origin) {
            excluded.push(owned(all[a].as_str()));
        }
        proof {
            let t0 = all@.take(a as int);
            let t1 = all@.take(a + 1);
            assert forall|s: Seq<char>| text_set(excluded@).contains(s) <==> (text_set(t1).contains(s) && s != origin@) by {
                if text_set(excluded@).contains(s) {
                    let i = choose|i: int| 0 <= i < excluded@.len() && #[trigger] excluded@[i]@ == s;
                    if i < before.len() {
                        assert(before[i]@ == s);
                        assert(text_set(before).contains(s));
                        let i2 = choose|i2: int| 0 <= i2 < t0.len() && #[trigger] t0[i2]@ == s;
                        assert(t1[i2]@ == s);
                    } else {
                        assert(t1[a as int]@ == s);
                    }
                }
                if text_set(t1).contains(s) && s != origin@ {
                    let i = choose|i: int| 0 <= i < t1.len() && #[trigger] t1[i]@ == s;
                    if i < a {
                        assert(t0[i]@ == s);
                        assert(text_set(t0).contains(s));
                        assert(text_set(before).contains(s));
                        let i2 = choose|i2: int| 0 <= i2 < before.len() && #[trigger] before[i2]@ == s;
                        assert(excluded@[i2]@ == s);
                    } else {
                        assert(excluded@[excluded@.len() - 1]@ == s);
                    }
                }
            }
        }
        a += 1;
    }
    proof {
        assert(all@.take(all.len() as int) =~= all@);
        lemma_text_set(all@);
        cut.lemma_view();
        assert(text_set(excluded@) =~= cut@.remove(origin@));
    }
    excluded
}

/// The origins other than `id`, in order.
fn without_id(origins: &Vec<String>, id: &str) -> (r: Vec<String>)
    ensures
        texts(r@) == without(texts(origins@), id@),
{
    let mut remaining: Vec<String> = Vec::new();
    let mut k: usize = 0;
    while k < origins.len()
        invariant
            k <= origins.len(),
            texts(remaining@) == without(texts(origins@).take(k as int), id@),
        decreases origins.len() - k,
    {
        let ghost before = texts(remaining@);
        if !str_eq(origins[k].as_str(), id) {
            remaining.push(owned(origins[k].as_str()));
        }
        proof {
            let t = texts(origins@);
            reveal(Seq::filter);
            assert(t.take(k + 1).drop_last() =~= t.take(k as int));
            assert(t.take(k + 1).last() == t[k as int]);
            assert(t[k as int] == origins@[k as int]@);
            if t[k as int] != id@ {
                assert(texts(remaining@) =~= before.push(t[k as int]));
            }
        }
        k += 1;
    }
    assert(texts(origins@).take(origins.len() as int) =~= texts(origins@));
    remaining
}

/// The impacts of the origins again, each with the cuts before it; none when one fails.
fn rebuild(modules: &[ModuleAnalysis], remaining: &Vec<String>) -> (r: Option<(IdSet, Vec<ImpactResult>)>)
    ensures
        match r {
            Some((cut, reps)) => rebuilt(modules@, texts(remaining@), reps@) && reps.len() == remaining.len()
                && cut@ == cut_before(reps@, reps.len() as int),
            None => exists|reps: Seq<ImpactResult>| {
                &&& #[trigger] rebuilt(modules@, texts(remaining@), reps)
                &&& reps.len() < remaining.len()
                &&& exists|e: ImpactError| impact_spec(
                    modules@,
                    texts(remaining@)[reps.len() as int],
                    cut_before(reps, reps.len() as int).remove(texts(remaining@)[reps.len() as int]),
                    Err(e),
                )
            },
        },
{
    let ghost rem = texts(remaining@);
    let mut cut = IdSet::new();
    let mut reports: Vec<ImpactResult> = Vec::new();
    let mut j: usize = 0;
    while j < remaining.len()
        invariant
            j <= remaining.len(),
            rem == texts(remaining@),
            reports.len() == j,
            rebuilt(modules@, rem, reports@),
            cut@ == cut_before(reports@, j as int),
        decreases remaining.len() - j,
    {
        let origin = &remaining[j];
        let excluded = excluding(&cut, origin.as_str());
        assert(rem[j as int] == origin@);
        match impact(modules, origin.as_str(), excluded.as_slice()) {
            Ok(report) => {
                cut_with_report(&mut cut, &report);
                let ghost before_reports = reports@;
                reports.push(report);
                proof {
                    let rs = reports@;
                    assert forall|i: int| 0 <= i <= j implies cut_before(rs, i) == cut_before(before_reports, i) by {
                        lemma_cut_before_prefix(rs, before_reports, i);
                    }
                    assert(cut_before(rs, j + 1) == cut_before(rs, j as int).union(wave_ids(rs[j as int])));
                    assert forall|i: int| 0 <= i < rs.len() implies impact_spec(
                        modules@,
                        rem[i],
                        cut_before(rs, i).remove(rem[i]),
                        Ok(#[trigger] rs[i]),
                    ) by {
                        if i < j {
                            assert(rs[i] == before_reports[i]);
                        }
                    }
                }
            },
            Err(e) => {
                assert(rebuilt(modules@, rem, reports@));
                return None;
            },
        }
        j += 1;
    }
    Some((cut, reports))
}

/// The review kept when its origin still has a report, else the last origin's.
fn review_fix(review: &Option<String>, reports: &Vec<ImpactResult>) -> (r: Option<String>)
    ensures
        opt_view(r) == review_after(opt_view(*review), reports@),
{
    let mut kept = false;
    let mut q: usize = 0;
    while q < reports.len()
        invariant
            q <= reports.len(),
            kept == exists|k: int| 0 <= k < q && Some(#[trigger] reports@[k].removed_module_id@) == opt_view(*review),
        decreases reports.len() - q,
    {
        let same = match review {
            Some(r) => str_eq(reports[q].removed_module_id.as_str(), r.as_str()),
            None => false,
        };
        if same {
            assert(Some(reports@[q as int].removed_module_id@) == opt_view(*review));
            kept = true;
        }
        q += 1;
    }
    if kept {
        copy_opt(review)
    } else if reports.len() > 0 {
        Some(owned(reports[reports.len() - 1].removed_module_id.as_str()))
    } else {
        None
    }
}

proof fn lemma_cut_before_prefix(a: Seq<ImpactResult>, b: Seq<ImpactResult>, i: int)
    requires
        i <= b.len(),
        b.len() <= a.len(),
        forall|k: int| 0 <= k < b.len() ==> a[k] == b[k],
    ensures
        cut_before(a, i) == cut_before(b, i),
    decreases i,
{
    if i > 0 {
        lemma_cut_before_prefix(a, b, i - 1);
    }
}

/// Whether the list holds the text.
fn holds(v: &Vec<String>, s: &str) -> (r: bool)
    ensures
        r == texts(v@).contains(s@),
{
    let mut i: usize = 0;
    while i < v.len()
        invariant
            i <= v.len(),
            forall|k: int| 0 <= k < i ==> (#[trigger] v@[k])@ != s@,
        decreases v.len() - i,
    {
        if str_eq(v[i].as_str(), s) {
            assert(texts(v@)[i as int] == s@);
            return true;
        }
        i += 1;
    }
    proof {
        if texts(v@).contains(s@) {
            let k = choose|k: int| 0 <= k < texts(v@).len() && texts(v@)[k] == s@;
            assert(v@[k]@ == s@);
        }
    }
    false
}

/// Law: undoing a successful restore made while no cut plays brings back
/// exactly the state and history from before the restore.
pub proof fn law_undo_reverts_restore(s0: Simulation, s1: Simulation, s2: Simulation, r: bool)
    requires
        s0.playing() is None,
        restored(s0, s1),
        undone(s1, s2, r),
    ensures
        r,
        s2.state() == s0.state(),
        s2.history() == s0.history(),
        s2.playing() is None,
{
    assert(s1.history().drop_last() =~= s0.history());
}

/// Law: cutting a module, letting the cut finish and undoing it brings back
/// exactly the state and history from before the cut.
pub proof fn law_undo_reverts_cut(
    s0: Simulation,
    s1: Simulation,
    s2: Simulation,
    s3: Simulation,
    modules: Seq<ModuleAnalysis>,
    id: Seq<char>,
    r: bool,
)
    requires
        began(s0, s1, modules, id),
        finished_cut(s1, s2),
        undone(s2, s3, r),
    ensures
        r,
        s3.state() == s0.state(),
        s3.history() == s0.history(),
        s3.playing() is None,
{
    assert(s2.history() == s0.history().push(s0.state()));
    assert(s2.history().drop_last() =~= s0.history());
}

impl Default for Simulation {
    /// A simulation with nothing cut.
    fn default() -> (r: Self)
        ensures
            r.state() == (StateView {
                unavailable: Set::empty(),
                origins: Seq::empty(),
                reports: Seq::empty(),
                review: None,
                selected: None,
            }),
            r.playing() is None,
            r.history() == Seq::<StateView>::empty(),
    {
        Simulation::new()
    }
}

/// A copy of a list of texts.
pub(crate) fn copy_texts(v: &Vec<String>) -> (r: Vec<String>)
    ensures
        r@ == v@,
{
    let mut r: Vec<String> = Vec::new();
    let mut i: usize = 0;
    while i < v.len()
        invariant
            i <= v.len(),
            r@ == v@.take(i as int),
        decreases v.len() - i,
    {
        r.push(v[i].clone());
        i += 1;
        assert(r@ =~= v@.take(i as int));
    }
    assert(v@.take(v.len() as int) =~= v@);
    r
}

/// A copy of an optional text.
fn copy_opt(o: &Option<String>) -> (r: Option<String>)
    ensures
        r == *o,
{
    match o {
        Some(s) => Some(s.clone()),
        None => None,
    }
}

/// A copy of a report.
fn copy_report(r: &ImpactResult) -> (c: ImpactResult)
    ensures
        report_view(c) == report_view(*r),
{
    let mut waves: Vec<Vec<String>> = Vec::new();
    let mut i: usize = 0;
    while i < r.waves.len()
        invariant
            i <= r.waves.len(),
            waves.len() == i,
            forall|k: int| 0 <= k < i ==> (#[trigger] waves@[k])@ == r.waves@[k]@,
        decreases r.waves.len() - i,
    {
        waves.push(copy_texts(&r.waves[i]));
        i += 1;
    }
    let c = ImpactResult {
        removed_module_id: r.removed_module_id.clone(),
        total_affected: r.total_affected,
        module_count: r.module_count,
        direct_affected: r.direct_affected,
        transitive_affected: r.transitive_affected,
        max_cascade_depth: r.max_cascade_depth,
        waves,
    };
    assert(report_view(c).waves =~= report_view(*r).waves);
    c
}

/// A copy of a list of reports.
fn copy_reports(v: &Vec<ImpactResult>) -> (r: Vec<ImpactResult>)
    ensures
        reports_view(r@) == reports_view(v@),
{
    let mut r: Vec<ImpactResult> = Vec::new();
    let mut i: usize = 0;
    while i < v.len()
        invariant
            i <= v.len(),
            reports_view(r@) == reports_view(v@).take(i as int),
        decreases v.len() - i,
    {
        let c = copy_report(&v[i]);
        let ghost before = reports_view(r@);
        r.push(c);
        assert(reports_view(r@) =~= before.push(report_view(c)));
        i += 1;
        assert(reports_view(r@) =~= reports_view(v@).take(i as int));
    }
    assert(reports_view(v@).take(v.len() as int) =~= reports_view(v@));
    r
}

/// Every identifier listed in some wave of a report, from its plain values.
pub open spec fn report_ids(r: ReportView) -> Set<Seq<char>> {
    Set::new(|s: Seq<char>| exists|w: int, k: int| 0 <= w < r.waves.len() && 0 <= k < r.waves[w].len() && #[trigger] r.waves[w][k] == s)
}

/// The identifiers listed in the waves of the first `k` reports.
pub open spec fn reported_ids(reports: Seq<ReportView>, k: int) -> Set<Seq<char>>
    decreases k,
{
    if k <= 0 {
        Set::empty()
    } else {
        reported_ids(reports, k - 1).union(report_ids(reports[k - 1]))
    }
}

/// A state whose cut-off modules are exactly those in the waves of its reports,
/// and whose origins are the removed modules of its reports, in order.
pub open spec fn consistent(v: StateView) -> bool {
    &&& v.origins.len() == v.reports.len()
    &&& forall|j: int| 0 <= j < v.reports.len() ==> #[trigger] v.origins[j] == v.reports[j].removed
    &&& v.unavailable == reported_ids(v.reports, v.reports.len() as int)
}

/// Law: finishing a cut keeps a consistent state consistent: the finished
/// report is appended, its waves are cut off, and its module becomes an origin.
pub proof fn law_finish_keeps_consistency(s1: Simulation, s2: Simulation)
    requires
        consistent(s1.state()),
        finished_cut(s1, s2),
    ensures
        consistent(s2.state()),
{
    match s1.playing() {
        None => {},
        Some(res) => {
            let v1 = s1.state();
            let v2 = s2.state();
            let n = v1.reports.len() as int;
            assert(v2.reports.len() == n + 1);
            assert(v2.reports[n] == report_view(res));
            assert forall|j: int| 0 <= j < n implies #[trigger] v2.reports[j] == v1.reports[j] by {}
            assert(reported_ids(v2.reports, n) == reported_ids(v1.reports, n)) by {
                lemma_reported_prefix(v1.reports, v2.reports, n);
            }
            let r = report_view(res);
            assert(report_ids(r) =~= wave_ids(res)) by {
                assert forall|x: Seq<char>| report_ids(r).contains(x) <==> wave_ids(res).contains(x) by {
                    if report_ids(r).contains(x) {
                        let (w, k) = choose|w: int, k: int| 0 <= w < r.waves.len() && 0 <= k < r.waves[w].len() && #[trigger] r.waves[w][k] == x;
                        assert(res.waves@[w]@[k]@ == x);
                    }
                    if wave_ids(res).contains(x) {
                        let (w, k) = choose|w: int, k: int| 0 <= w < res.waves@.len() && 0 <= k < res.waves@[w]@.len() && #[trigger] res.waves@[w]@[k]@ == x;
                        assert(r.waves[w] == texts(res.waves@[w]@));
                        assert(r.waves[w][k] == x);
                    }
                }
            }
            assert(v2.unavailable =~= reported_ids(v2.reports, n + 1));
            assert forall|j: int| 0 <= j < v2.reports.len() implies #[trigger] v2.origins[j] == v2.reports[j].removed by {
                if j < n {
                    assert(v2.origins[j] == v1.origins[j]);
                }
            }
        },
    }
}

/// Reports that agree on their first `k` entries cut off the same identifiers.
pub proof fn lemma_reported_prefix(a: Seq<ReportView>, b: Seq<ReportView>, k: int)
    requires
        0 <= k <= a.len(),
        k <= b.len(),
        forall|j: int| 0 <= j < k ==> #[trigger] a[j] == b[j],
    ensures
        reported_ids(a, k) == reported_ids(b, k),
    decreases k,
{
    if k > 0 {
        lemma_reported_prefix(a, b, k - 1);
        assert(a[k - 1] == b[k - 1]);
    }
}

} // verus!
