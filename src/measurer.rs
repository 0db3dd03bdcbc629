//! The registry of named series, and the operations routed to them by name.
use vstd::prelude::*;
use crate::export::{lines_of, lines_text};
use crate::series::{Series, SeriesView, StopPolicy, record_spec, record_all};
use crate::stats::{
    mean_of,
    mean_spec,
    min_of,
    max_of,
    median_of,
    median_spec,
    mode_of,
    is_mode,
    variance_of,
    variance_spec,
    std_dev_of,
    is_floor_sqrt,
};

verus! {

/// Capacity of a series when none is given.
pub const DEFAULT_CAPACITY: usize = 1000;

/// Why an operation of the registry failed.
#[derive(Clone, Copy, Debug, PartialEq, Eq, Structural)]
pub enum MeasureError {
    /// No series of that name is registered.
    SeriesNotFound,
    /// The series has no timer mark to stop.
    TimerNotStarted,
    /// The series holds no sample.
    EmptySeries,
}

/// The name of the series that always exists.
pub open spec fn default_name() -> Seq<char> {
    seq!['d', 'e', 'f', 'a', 'u', 'l', 't']
}

/// The error a statistic of series `name` fails with, if any.
pub open spec fn stat_error(v: MeasurerView, name: Seq<char>) -> Option<MeasureError> {
    if !v.series.contains_key(name) {
        Some(MeasureError::SeriesNotFound)
    } else if v.series[name].samples.len() == 0 {
        Some(MeasureError::EmptySeries)
    } else {
        None
    }
}

/// How a stop of series `name` under `policy` that returned `r` took the
/// registry from `pre` to `post`.
pub open spec fn stop_outcome(
    pre: MeasurerView,
    post: MeasurerView,
    name: Seq<char>,
    policy: StopPolicy,
    r: Result<u64, MeasureError>,
) -> bool {
    if !pre.series.contains_key(name) {
        r == Err::<u64, MeasureError>(MeasureError::SeriesNotFound) && post == pre
    } else if !pre.series[name].started {
        r == Err::<u64, MeasureError>(MeasureError::TimerNotStarted) && post == pre
    } else {
        r.is_ok() && post == (MeasurerView {
            series: pre.series.insert(
                name,
                SeriesView {
                    samples: record_spec(
                        pre.series[name].samples,
                        pre.series[name].capacity,
                        policy,
                        r->Ok_0,
                    ),
                    capacity: pre.series[name].capacity,
                    started: false,
                },
            ),
            ..pre
        })
    }
}

/// What a registry is: its series by name, and the capacity given to new ones.
pub struct MeasurerView {
    pub series: Map<Seq<char>, SeriesView>,
    pub default_capacity: nat,
}

/// Times repeated runs of code sections and keeps a bounded history of
/// elapsed times for each named series.
///
/// Policies: creating a series under a name that exists replaces it with an
/// empty one; starting, stopping or reading a series that was never created
/// fails with `SeriesNotFound`. A stop clears the mark.
pub struct Measurer {
    measurements: Vec<Series>,
    max_samples: usize,
}

spec fn names_unique(ms: Seq<Series>) -> bool {
    forall|i: int, j: int|
        0 <= i < ms.len() && 0 <= j < ms.len() && i != j ==> #[trigger] ms[i].name_view()
            != #[trigger] ms[j].name_view()
}

spec fn has_name(ms: Seq<Series>, k: Seq<char>) -> bool {
    exists|i: int| 0 <= i < ms.len() && #[trigger] ms[i].name_view() == k
}

spec fn series_map(ms: Seq<Series>) -> Map<Seq<char>, SeriesView> {
    Map::new(
        |k: Seq<char>| has_name(ms, k),
        |k: Seq<char>| ms[choose|i: int| 0 <= i < ms.len() && #[trigger] ms[i].name_view() == k]@,
    )
}

proof fn lemma_lookup(ms: Seq<Series>, i: int)
    requires
        names_unique(ms),
        0 <= i < ms.len(),
    ensures
        series_map(ms).contains_key(ms[i].name_view()),
        series_map(ms)[ms[i].name_view()] == ms[i]@,
{
    let k = ms[i].name_view();
    assert(has_name(ms, k));
    let j = choose|j: int| 0 <= j < ms.len() && #[trigger] ms[j].name_view() == k;
    assert(j == i);
}

proof fn lemma_update(ms: Seq<Series>, i: int, s: Series)
    requires
        names_unique(ms),
        0 <= i < ms.len(),
        s.name_view() == ms[i].name_view(),
    ensures
        names_unique(ms.update(i, s)),
        series_map(ms.update(i, s)) == series_map(ms).insert(s.name_view(), s@),
{
    let ms2 = ms.update(i, s);
    assert forall|a: int, b: int|
        0 <= a < ms2.len() && 0 <= b < ms2.len() && a != b implies #[trigger] ms2[a].name_view()
        != #[trigger] ms2[b].name_view() by {
        assert(ms[a].name_view() != ms[b].name_view());
    }
    assert forall|k: Seq<char>| has_name(ms2, k) == (has_name(ms, k) || k == s.name_view()) by {
        if has_name(ms, k) {
            let j = choose|j: int| 0 <= j < ms.len() && #[trigger] ms[j].name_view() == k;
            assert(ms2[j].name_view() == k);
        }
        if has_name(ms2, k) {
            let j = choose|j: int| 0 <= j < ms2.len() && #[trigger] ms2[j].name_view() == k;
            assert(ms[j].name_view() == k);
        }
        if k == s.name_view() {
            assert(ms2[i].name_view() == k);
        }
    }
    assert forall|k: Seq<char>| #[trigger]
        series_map(ms2).contains_key(k) implies series_map(ms2)[k] == series_map(ms).insert(
        s.name_view(),
        s@,
    )[k] by {
        let j = choose|j: int| 0 <= j < ms2.len() && #[trigger] ms2[j].name_view() == k;
        lemma_lookup(ms2, j);
        if j != i {
            lemma_lookup(ms, j);
        }
    }
    assert(series_map(ms2) =~= series_map(ms).insert(s.name_view(), s@));
}

proof fn lemma_push(ms: Seq<Series>, s: Series)
    requires
        names_unique(ms),
        !has_name(ms, s.name_view()),
    ensures
        names_unique(ms.push(s)),
        series_map(ms.push(s)) == series_map(ms).insert(s.name_view(), s@),
{
    let ms2 = ms.push(s);
    let n = ms.len() as int;
    assert forall|a: int, b: int|
        0 <= a < ms2.len() && 0 <= b < ms2.len() && a != b implies #[trigger] ms2[a].name_view()
        != #[trigger] ms2[b].name_view() by {
        if a < n && b < n {
            assert(ms[a].name_view() != ms[b].name_view());
        } else if a < n {
            assert(ms[a].name_view() == ms2[a].name_view());
        } else {
            assert(ms[b].name_view() == ms2[b].name_view());
        }
    }
    assert forall|k: Seq<char>| has_name(ms2, k) == (has_name(ms, k) || k == s.name_view()) by {
        if has_name(ms, k) {
            let j = choose|j: int| 0 <= j < ms.len() && #[trigger] ms[j].name_view() == k;
            assert(ms2[j].name_view() == k);
        }
        if has_name(ms2, k) {
            let j = choose|j: int| 0 <= j < ms2.len() && #[trigger] ms2[j].name_view() == k;
            if j < n {
                assert(ms[j].name_view() == k);
            }
        }
        if k == s.name_view() {
            assert(ms2[n].name_view() == k);
        }
    }
    assert forall|k: Seq<char>| #[trigger]
        series_map(ms2).contains_key(k) implies series_map(ms2)[k] == series_map(ms).insert(
        s.name_view(),
        s@,
    )[k] by {
        let j = choose|j: int| 0 <= j < ms2.len() && #[trigger] ms2[j].name_view() == k;
        lemma_lookup(ms2, j);
        if j != n {
            assert(ms2[j] == ms[j]);
            lemma_lookup(ms, j);
        }
    }
    assert(series_map(ms2) =~= series_map(ms).insert(s.name_view(), s@));
}

/// Taking out the series at index `i` and putting one of the same name in its
/// place updates that name in the view.
proof fn lemma_take_put(ms: Seq<Series>, i: int, s: Series)
    requires
        names_unique(ms),
        0 <= i < ms.len(),
        s.name_view() == ms[i].name_view(),
    ensures
        ms.remove(i).insert(i, s) == ms.update(i, s),
        names_unique(ms.update(i, s)),
        series_map(ms.update(i, s)) == series_map(ms).insert(s.name_view(), s@),
{
    assert(ms.remove(i).insert(i, s) =~= ms.update(i, s));
    lemma_update(ms, i, s);
}

/// Putting a well-formed series in place of another of the same name keeps
/// the default series and the well-formedness of every series.
proof fn lemma_keeps_default(ms: Seq<Series>, i: int, s: Series)
    requires
        0 <= i < ms.len(),
        s.name_view() == ms[i].name_view(),
        s.wf(),
        has_name(ms, default_name()),
        forall|j: int| 0 <= j < ms.len() ==> #[trigger] ms[j].wf(),
    ensures
        has_name(ms.update(i, s), default_name()),
        forall|j: int| 0 <= j < ms.len() ==> #[trigger] ms.update(i, s)[j].wf(),
{
    let j = choose|j: int| 0 <= j < ms.len() && #[trigger] ms[j].name_view() == default_name();
    assert(ms.update(i, s)[j].name_view() == default_name());
}

impl View for Measurer {
    type V = MeasurerView;

    closed spec fn view(&self) -> MeasurerView {
        MeasurerView {
            series: series_map(self.measurements@),
            default_capacity: self.max_samples as nat,
        }
    }
}

impl Measurer {
    /// Names are unique, the default series exists, and every series is
    /// well formed.
    pub closed spec fn wf(&self) -> bool {
        &&& names_unique(self.measurements@)
        &&& has_name(self.measurements@, default_name())
        &&& forall|i: int|
            0 <= i < self.measurements@.len() ==> #[trigger] self.measurements@[i].wf()
        &&& self.max_samples > 0
    }

    /// What a well-formed registry guarantees of its view.
    pub proof fn lemma_wf_view(&self)
        requires
            self.wf(),
        ensures
            self@.series.contains_key(default_name()),
            self@.default_capacity > 0,
            forall|k: Seq<char>| #[trigger]
                self@.series.contains_key(k) ==> self@.series[k].capacity > 0
                    && self@.series[k].samples.len() <= self@.series[k].capacity,
    {
        assert forall|k: Seq<char>| #[trigger]
            self@.series.contains_key(k) implies self@.series[k].capacity > 0
                && self@.series[k].samples.len() <= self@.series[k].capacity by {
            let j = choose|j: int|
                0 <= j < self.measurements@.len() && #[trigger] self.measurements@[j].name_view()
                    == k;
            lemma_lookup(self.measurements@, j);
            assert(self.measurements@[j].wf());
            self.measurements@[j].lemma_wf_view();
        }
    }

    /// Index of the series called `name`.
    fn find(&self, name: &str) -> (r: Option<usize>)
        requires
            self.wf(),
        ensures
            match r {
                Some(i) => i < self.measurements@.len() && self.measurements@[i as int].name_view()
                    == name@,
                None => !self@.series.contains_key(name@),
            },
    {
        let key = name.to_owned();
        let mut i: usize = 0;
        while i < self.measurements.len()
            invariant
                self.wf(),
                key@ == name@,
                0 <= i <= self.measurements@.len(),
                forall|j: int| 0 <= j < i ==> #[trigger] self.measurements@[j].name_view() != name@,
            decreases self.measurements@.len() - i,
        {
            if self.measurements[i].name == key {
                return Some(i);
            }
            i += 1;
        }
        None
    }

    /// Inserts `s` at index `i`, where the result is a well-formed registry.
    fn put_back(&mut self, i: usize, s: Series)
        requires
            i <= old(self).measurements@.len(),
            old(self).max_samples > 0,
            names_unique(old(self).measurements@.insert(i as int, s)),
            has_name(old(self).measurements@.insert(i as int, s), default_name()),
            forall|j: int|
                0 <= j <= old(self).measurements@.len() ==> #[trigger] old(
                    self,
                ).measurements@.insert(i as int, s)[j].wf(),
        ensures
            final(self).measurements@ == old(self).measurements@.insert(i as int, s),
            final(self).max_samples == old(self).max_samples,
            final(self).wf(),
    {
        self.measurements.insert(i, s);
    }

    /// A registry with the default series, empty. Its capacity, and the
    /// capacity of series created later, is `num_samples`, or
    /// `DEFAULT_CAPACITY` when none is given.
    pub fn new(num_samples: Option<usize>) -> (r: Self)
        requires
            num_samples.is_some() ==> num_samples.unwrap() > 0,
        ensures
            r.wf(),
            r@.default_capacity == (match num_samples {
                Some(c) => c,
                None => DEFAULT_CAPACITY,
            }),
            r@.series == Map::<Seq<char>, SeriesView>::empty().insert(
                default_name(),
                SeriesView {
                    samples: Seq::empty(),
                    capacity: r@.default_capacity,
                    started: false,
                },
            ),
    {
        let ns = match num_samples {
            Some(c) => c,
            None => DEFAULT_CAPACITY,
        };
        let name = "default".to_owned();
        proof {
            reveal_strlit("default");
            assert(name@ =~= default_name());
        }
        let s = Series::new(name, ns);
        let mut measurements: Vec<Series> = Vec::new();
        measurements.push(s);
        proof {
            let e = Seq::<Series>::empty();
            assert(e.push(s) =~= measurements@);
            assert(series_map(e) =~= Map::empty());
            lemma_push(e, s);
            assert(measurements@[0].name_view() == default_name());
        }
        Measurer { measurements, max_samples: ns }
    }

    /// Registers an empty series `name` of capacity `capacity`, replacing any
    /// series of that name.
    pub fn add_measurement_with_capacity(&mut self, name: &str, capacity: usize)
        requires
            old(self).wf(),
            capacity > 0,
        ensures
            final(self).wf(),
            final(self)@ == (MeasurerView {
                series: old(self)@.series.insert(
                    name@,
                    SeriesView { samples: Seq::empty(), capacity: capacity as nat, started: false },
                ),
                ..old(self)@
            }),
    {
        let s = Series::new(name.to_owned(), capacity);
        match self.find(name) {
            Some(i) => {
                let ghost ms = self.measurements@;
                let _old_series = self.measurements.remove(i);
                proof {
                    lemma_take_put(ms, i as int, s);
                    lemma_keeps_default(ms, i as int, s);
                }
                self.put_back(i, s);
            },
            None => {
                let ghost ms = self.measurements@;
                proof {
                    lemma_push(ms, s);
                    assert(ms.insert(ms.len() as int, s) =~= ms.push(s));
                    let j = choose|j: int|
                        0 <= j < ms.len() && #[trigger] ms[j].name_view() == default_name();
                    assert(ms.push(s)[j].name_view() == default_name());
                    assert forall|j: int| 0 <= j < ms.push(s).len() implies #[trigger] ms.push(
                        s,
                    )[j].wf() by {
                        if j < ms.len() {
                            assert(ms.push(s)[j] == ms[j]);
                        }
                    }
                }
                let n = self.measurements.len();
                self.put_back(n, s);
            },
        }
    }

    /// Registers an empty series `name` with the registry's capacity,
    /// replacing any series of that name.
    pub fn add_measurement(&mut self, name: &str)
        requires
            old(self).wf(),
        ensures
            final(self).wf(),
            final(self)@ == (MeasurerView {
                series: old(self)@.series.insert(
                    name@,
                    SeriesView {
                        samples: Seq::empty(),
                        capacity: old(self)@.default_capacity,
                        started: false,
                    },
                ),
                ..old(self)@
            }),
    {
        let c = self.max_samples;
        self.add_measurement_with_capacity(name, c);
    }

    /// Sets the capacity given to series created from now on.
    pub fn update_max_samples(&mut self, new_max: usize)
        requires
            old(self).wf(),
            new_max > 0,
        ensures
            final(self).wf(),
            final(self)@ == (MeasurerView { default_capacity: new_max as nat, ..old(self)@ }),
    {
        self.max_samples = new_max;
    }

    /// Sets the timer mark of series `name` to the current instant.
    pub fn start_measure_named(&mut self, name: &str) -> (r: Result<(), MeasureError>)
        requires
            old(self).wf(),
        ensures
            final(self).wf(),
            r.is_ok() == old(self)@.series.contains_key(name@),
            r.is_ok() ==> final(self)@ == (MeasurerView {
                series: old(self)@.series.insert(
                    name@,
                    SeriesView { started: true, ..old(self)@.series[name@] },
                ),
                ..old(self)@
            }),
            r.is_err() ==> r == Err::<(), MeasureError>(MeasureError::SeriesNotFound)
                && final(self)@ == old(self)@,
    {
        match self.find(name) {
            None => Err(MeasureError::SeriesNotFound),
            Some(i) => {
                let ghost ms = self.measurements@;
                let mut s = self.measurements.remove(i);
                proof {
                    assert(ms[i as int] == s);
                    lemma_lookup(ms, i as int);
                }
                s.start();
                proof {
                    lemma_take_put(ms, i as int, s);
                    lemma_keeps_default(ms, i as int, s);
                }
                self.put_back(i, s);
                Ok(())
            },
        }
    }

    /// Sets the timer mark of the default series to the current instant.
    pub fn start_measure(&mut self)
        requires
            old(self).wf(),
        ensures
            final(self).wf(),
            final(self)@ == (MeasurerView {
                series: old(self)@.series.insert(
                    default_name(),
                    SeriesView { started: true, ..old(self)@.series[default_name()] },
                ),
                ..old(self)@
            }),
    {
        proof {
            reveal_strlit("default");
            assert("default"@ =~= default_name());
            self.lemma_wf_view();
        }
        let _ = self.start_measure_named("default");
    }

    /// Records `elapsed` nanoseconds into series `name` under `policy`,
    /// leaving its timer mark as it is.
    pub fn record_sample(&mut self, name: &str, elapsed: u64, policy: StopPolicy) -> (r: Result<
        (),
        MeasureError,
    >)
        requires
            old(self).wf(),
        ensures
            final(self).wf(),
            r.is_ok() == old(self)@.series.contains_key(name@),
            r.is_ok() ==> final(self)@ == (MeasurerView {
                series: old(self)@.series.insert(
                    name@,
                    SeriesView {
                        samples: record_spec(
                            old(self)@.series[name@].samples,
                            old(self)@.series[name@].capacity,
                            policy,
                            elapsed,
                        ),
                        ..old(self)@.series[name@]
                    },
                ),
                ..old(self)@
            }),
            r.is_err() ==> r == Err::<(), MeasureError>(MeasureError::SeriesNotFound)
                && final(self)@ == old(self)@,
    {
        match self.find(name) {
            None => Err(MeasureError::SeriesNotFound),
            Some(i) => {
                let ghost ms = self.measurements@;
                let mut s = self.measurements.remove(i);
                proof {
                    assert(ms[i as int] == s);
                    lemma_lookup(ms, i as int);
                    assert(s.wf());
                }
                s.record(elapsed, policy);
                proof {
                    lemma_take_put(ms, i as int, s);
                    lemma_keeps_default(ms, i as int, s);
                }
                self.put_back(i, s);
                Ok(())
            },
        }
    }

    /// Stops the timer of series `name`: clears the mark and records the
    /// nanoseconds since it was set under `policy`. Returns them.
    pub fn stop_measure_with(&mut self, name: &str, policy: StopPolicy) -> (r: Result<
        u64,
        MeasureError,
    >)
        requires
            old(self).wf(),
        ensures
            final(self).wf(),
            !old(self)@.series.contains_key(name@) ==> r == Err::<u64, MeasureError>(
                MeasureError::SeriesNotFound,
            ) && final(self)@ == old(self)@,
            old(self)@.series.contains_key(name@) && !old(self)@.series[name@].started ==> r
                == Err::<u64, MeasureError>(MeasureError::TimerNotStarted) && final(self)@ == old(
                self,
            )@,
            old(self)@.series.contains_key(name@) && old(self)@.series[name@].started ==> r.is_ok(),
            r matches Ok(e) ==> final(self)@ == (MeasurerView {
                series: old(self)@.series.insert(
                    name@,
                    SeriesView {
                        samples: record_spec(
                            old(self)@.series[name@].samples,
                            old(self)@.series[name@].capacity,
                            policy,
                            e,
                        ),
                        capacity: old(self)@.series[name@].capacity,
                        started: false,
                    },
                ),
                ..old(self)@
            }),
    {
        match self.find(name) {
            None => Err(MeasureError::SeriesNotFound),
            Some(i) => {
                let ghost ms = self.measurements@;
                let mut s = self.measurements.remove(i);
                proof {
                    assert(ms[i as int] == s);
                    lemma_lookup(ms, i as int);
                    assert(s.wf());
                }
                let r = match s.take_elapsed() {
                    None => Err(MeasureError::TimerNotStarted),
                    Some(e) => {
                        s.record(e, policy);
                        Ok(e)
                    },
                };
                proof {
                    lemma_take_put(ms, i as int, s);
                    lemma_keeps_default(ms, i as int, s);
                    if r.is_err() {
                        assert(s@ == ms[i as int]@);
                        assert(series_map(ms).insert(s.name_view(), s@) =~= series_map(ms));
                    }
                }
                self.put_back(i, s);
                r
            },
        }
    }


    /// Stops the timer of series `name`; a full buffer drops the new sample.
    pub fn stop_measure_named(&mut self, name: &str) -> (r: Result<u64, MeasureError>)
        requires
            old(self).wf(),
        ensures
            final(self).wf(),
            stop_outcome(old(self)@, final(self)@, name@, StopPolicy::Append, r),
    {
        self.stop_measure_with(name, StopPolicy::Append)
    }

    /// Stops the timer of series `name`; a full buffer evicts its oldest sample.
    pub fn stop_measure_replace_old_named(&mut self, name: &str) -> (r: Result<u64, MeasureError>)
        requires
            old(self).wf(),
        ensures
            final(self).wf(),
            stop_outcome(old(self)@, final(self)@, name@, StopPolicy::Slide, r),
    {
        self.stop_measure_with(name, StopPolicy::Slide)
    }

    /// Stops the default series' timer; a full buffer drops the new sample.
    pub fn stop_measure(&mut self) -> (r: Result<u64, MeasureError>)
        requires
            old(self).wf(),
        ensures
            final(self).wf(),
            stop_outcome(old(self)@, final(self)@, default_name(), StopPolicy::Append, r),
    {
        proof {
            reveal_strlit("default");
            assert("default"@ =~= default_name());
        }
        self.stop_measure_with("default", StopPolicy::Append)
    }

    /// Stops the default series' timer; a full buffer evicts its oldest sample.
    pub fn stop_measure_replace_old(&mut self) -> (r: Result<u64, MeasureError>)
        requires
            old(self).wf(),
        ensures
            final(self).wf(),
            stop_outcome(old(self)@, final(self)@, default_name(), StopPolicy::Slide, r),
    {
        proof {
            reveal_strlit("default");
            assert("default"@ =~= default_name());
        }
        self.stop_measure_with("default", StopPolicy::Slide)
    }

    /// The samples of series `name`, oldest first.
    pub fn get_samples_named(&self, name: &str) -> (r: Result<&Vec<u64>, MeasureError>)
        requires
            self.wf(),
        ensures
            match r {
                Ok(v) => self@.series.contains_key(name@) && v@ == self@.series[name@].samples,
                Err(e) => !self@.series.contains_key(name@) && e == MeasureError::SeriesNotFound,
            },
    {
        match self.find(name) {
            None => Err(MeasureError::SeriesNotFound),
            Some(i) => {
                proof {
                    lemma_lookup(self.measurements@, i as int);
                }
                Ok(self.measurements[i].samples())
            },
        }
    }

    /// The samples of the default series, oldest first.
    pub fn get_samples(&self) -> (r: &Vec<u64>)
        requires
            self.wf(),
        ensures
            r@ == self@.series[default_name()].samples,
    {
        proof {
            reveal_strlit("default");
            assert("default"@ =~= default_name());
            self.lemma_wf_view();
        }
        match self.get_samples_named("default") {
            Ok(v) => v,
            Err(_) => {
                assert(false);
                self.measurements[0].samples()
            },
        }
    }

    /// The non-empty samples of series `name`, or the error a statistic fails with.
    fn stat_samples(&self, name: &str) -> (r: Result<&Vec<u64>, MeasureError>)
        requires
            self.wf(),
        ensures
            match r {
                Ok(v) => stat_error(self@, name@) is None && v@ == self@.series[name@].samples,
                Err(e) => stat_error(self@, name@) == Some(e),
            },
    {
        match self.get_samples_named(name) {
            Err(e) => Err(e),
            Ok(v) => if v.len() == 0 {
                Err(MeasureError::EmptySeries)
            } else {
                Ok(v)
            },
        }
    }

    /// Mean of the samples, in nanoseconds rounded down, of series `name`.
    pub fn get_average_named(&self, name: &str) -> (r: Result<u64, MeasureError>)
        requires
            self.wf(),
        ensures
            match r {
                Ok(x) => stat_error(self@, name@) is None && x == mean_spec(self@.series[name@].samples),
                Err(e) => stat_error(self@, name@) == Some(e),
            },
    {
        match self.stat_samples(name) {
            Err(e) => Err(e),
            Ok(v) => Ok(mean_of(v)),
        }
    }

    /// Mean of the samples, in nanoseconds rounded down, of the default series.
    pub fn get_average(&self) -> (r: Result<u64, MeasureError>)
        requires
            self.wf(),
        ensures
            match r {
                Ok(x) => stat_error(self@, default_name()) is None && x == mean_spec(self@.series[default_name()].samples),
                Err(e) => stat_error(self@, default_name()) == Some(e),
            },
    {
        proof {
            reveal_strlit("default");
            assert("default"@ =~= default_name());
        }
        self.get_average_named("default")
    }

    /// Smallest sample, of series `name`.
    pub fn get_min_named(&self, name: &str) -> (r: Result<u64, MeasureError>)
        requires
            self.wf(),
        ensures
            match r {
                Ok(x) => stat_error(self@, name@) is None && self@.series[name@].samples.contains(x) && forall|i: int| 0 <= i < self@.series[name@].samples.len() ==> x <= self@.series[name@].samples[i],
                Err(e) => stat_error(self@, name@) == Some(e),
            },
    {
        match self.stat_samples(name) {
            Err(e) => Err(e),
            Ok(v) => Ok(min_of(v)),
        }
    }

    /// Smallest sample, of the default series.
    pub fn get_min(&self) -> (r: Result<u64, MeasureError>)
        requires
            self.wf(),
        ensures
            match r {
                Ok(x) => stat_error(self@, default_name()) is None && self@.series[default_name()].samples.contains(x) && forall|i: int| 0 <= i < self@.series[default_name()].samples.len() ==> x <= self@.series[default_name()].samples[i],
                Err(e) => stat_error(self@, default_name()) == Some(e),
            },
    {
        proof {
            reveal_strlit("default");
            assert("default"@ =~= default_name());
        }
        self.get_min_named("default")
    }

    /// Largest sample, of series `name`.
    pub fn get_max_named(&self, name: &str) -> (r: Result<u64, MeasureError>)
        requires
            self.wf(),
        ensures
            match r {
                Ok(x) => stat_error(self@, name@) is None && self@.series[name@].samples.contains(x) && forall|i: int| 0 <= i < self@.series[name@].samples.len() ==> self@.series[name@].samples[i] <= x,
                Err(e) => stat_error(self@, name@) == Some(e),
            },
    {
        match self.stat_samples(name) {
            Err(e) => Err(e),
            Ok(v) => Ok(max_of(v)),
        }
    }

    /// Largest sample, of the default series.
    pub fn get_max(&self) -> (r: Result<u64, MeasureError>)
        requires
            self.wf(),
        ensures
            match r {
                Ok(x) => stat_error(self@, default_name()) is None && self@.series[default_name()].samples.contains(x) && forall|i: int| 0 <= i < self@.series[default_name()].samples.len() ==> self@.series[default_name()].samples[i] <= x,
                Err(e) => stat_error(self@, default_name()) == Some(e),
            },
    {
        proof {
            reveal_strlit("default");
            assert("default"@ =~= default_name());
        }
        self.get_max_named("default")
    }

    /// Median of the samples, in nanoseconds rounded down, of series `name`.
    pub fn get_median_named(&self, name: &str) -> (r: Result<u64, MeasureError>)
        requires
            self.wf(),
        ensures
            match r {
                Ok(x) => stat_error(self@, name@) is None && x == median_spec(self@.series[name@].samples),
                Err(e) => stat_error(self@, name@) == Some(e),
            },
    {
        match self.stat_samples(name) {
            Err(e) => Err(e),
            Ok(v) => Ok(median_of(v)),
        }
    }

    /// Median of the samples, in nanoseconds rounded down, of the default series.
    pub fn get_median(&self) -> (r: Result<u64, MeasureError>)
        requires
            self.wf(),
        ensures
            match r {
                Ok(x) => stat_error(self@, default_name()) is None && x == median_spec(self@.series[default_name()].samples),
                Err(e) => stat_error(self@, default_name()) == Some(e),
            },
    {
        proof {
            reveal_strlit("default");
            assert("default"@ =~= default_name());
        }
        self.get_median_named("default")
    }

    /// Most frequent sample of series `name`; among equally frequent ones the smallest.
    pub fn get_mode_named(&self, name: &str) -> (r: Result<u64, MeasureError>)
        requires
            self.wf(),
        ensures
            match r {
                Ok(x) => stat_error(self@, name@) is None && is_mode(self@.series[name@].samples, x),
                Err(e) => stat_error(self@, name@) == Some(e),
            },
    {
        match self.stat_samples(name) {
            Err(e) => Err(e),
            Ok(v) => Ok(mode_of(v)),
        }
    }

    /// Most frequent sample of the default series; among equally frequent ones the
    /// smallest.
    pub fn get_mode(&self) -> (r: Result<u64, MeasureError>)
        requires
            self.wf(),
        ensures
            match r {
                Ok(x) => stat_error(self@, default_name()) is None && is_mode(self@.series[default_name()].samples, x),
                Err(e) => stat_error(self@, default_name()) == Some(e),
            },
    {
        proof {
            reveal_strlit("default");
            assert("default"@ =~= default_name());
        }
        self.get_mode_named("default")
    }

    /// Mean squared distance of the samples from their mean, in square
    /// nanoseconds rounded down, of series `name`.
    pub fn get_variance_named(&self, name: &str) -> (r: Result<u128, MeasureError>)
        requires
            self.wf(),
        ensures
            match r {
                Ok(x) => stat_error(self@, name@) is None && x == variance_spec(self@.series[name@].samples),
                Err(e) => stat_error(self@, name@) == Some(e),
            },
    {
        match self.stat_samples(name) {
            Err(e) => Err(e),
            Ok(v) => Ok(variance_of(v)),
        }
    }

    /// Mean squared distance of the samples from their mean, in square
    /// nanoseconds rounded down, of the default series.
    pub fn get_variance(&self) -> (r: Result<u128, MeasureError>)
        requires
            self.wf(),
        ensures
            match r {
                Ok(x) => stat_error(self@, default_name()) is None && x == variance_spec(self@.series[default_name()].samples),
                Err(e) => stat_error(self@, default_name()) == Some(e),
            },
    {
        proof {
            reveal_strlit("default");
            assert("default"@ =~= default_name());
        }
        self.get_variance_named("default")
    }

    /// Standard deviation of the samples: the square root of the variance,
    /// in nanoseconds rounded down, of series `name`.
    pub fn get_std_dev_named(&self, name: &str) -> (r: Result<u64, MeasureError>)
        requires
            self.wf(),
        ensures
            match r {
                Ok(x) => stat_error(self@, name@) is None && is_floor_sqrt(variance_spec(self@.series[name@].samples), x as int),
                Err(e) => stat_error(self@, name@) == Some(e),
            },
    {
        match self.stat_samples(name) {
            Err(e) => Err(e),
            Ok(v) => Ok(std_dev_of(v)),
        }
    }

    /// Standard deviation of the samples: the square root of the variance,
    /// in nanoseconds rounded down, of the default series.
    pub fn get_std_dev(&self) -> (r: Result<u64, MeasureError>)
        requires
            self.wf(),
        ensures
            match r {
                Ok(x) => stat_error(self@, default_name()) is None && is_floor_sqrt(variance_spec(self@.series[default_name()].samples), x as int),
                Err(e) => stat_error(self@, default_name()) == Some(e),
            },
    {
        proof {
            reveal_strlit("default");
            assert("default"@ =~= default_name());
        }
        self.get_std_dev_named("default")
    }

    /// Runs `f` `iterations` times, timing each run into series `name` under
    /// `policy`, and returns the mean of all samples the series then holds.
    pub fn measure_closure_named<F: Fn()>(
        &mut self,
        f: F,
        name: &str,
        iterations: usize,
        policy: StopPolicy,
    ) -> (r: Result<u64, MeasureError>)
        requires
            old(self).wf(),
            iterations >= 1,
            f.requires(()),
        ensures
            final(self).wf(),
            !old(self)@.series.contains_key(name@) ==> r == Err::<u64, MeasureError>(
                MeasureError::SeriesNotFound,
            ) && final(self)@ == old(self)@,
            old(self)@.series.contains_key(name@) ==> exists|es: Seq<u64>|
                es.len() == iterations && #[trigger] final(self)@ == (MeasurerView {
                    series: old(self)@.series.insert(
                        name@,
                        SeriesView {
                            samples: record_all(
                                old(self)@.series[name@].samples,
                                old(self)@.series[name@].capacity,
                                policy,
                                es,
                            ),
                            capacity: old(self)@.series[name@].capacity,
                            started: false,
                        },
                    ),
                    ..old(self)@
                }),
            old(self)@.series.contains_key(name@) ==> final(self)@.series[name@].samples.len() > 0
                && r == Ok::<u64, MeasureError>(
                mean_spec(final(self)@.series[name@].samples) as u64),
    {
        match self.find(name) {
            None => {
                return Err(MeasureError::SeriesNotFound);
            },
            Some(i) => {
                proof {
                    lemma_lookup(self.measurements@, i as int);
                }
            },
        }
        let ghost pre = old(self)@;
        let ghost s0 = pre.series[name@].samples;
        let ghost cap = pre.series[name@].capacity;
        let ghost mut es: Seq<u64> = Seq::empty();
        proof {
            self.lemma_wf_view();
            assert(pre.series.contains_key(name@));
            assert(pre.series.insert(name@, pre.series[name@]) =~= pre.series);
        }
        let mut k: usize = 0;
        while k < iterations
            invariant
                self.wf(),
                f.requires(()),
                0 <= k <= iterations,
                es.len() == k,
                cap > 0,
                s0.len() <= cap,
                pre.series.contains_key(name@),
                self@ == (MeasurerView {
                    series: pre.series.insert(
                        name@,
                        SeriesView {
                            samples: record_all(s0, cap, policy, es),
                            capacity: cap,
                            started: if k == 0 {
                                pre.series[name@].started
                            } else {
                                false
                            },
                        },
                    ),
                    ..pre
                }),
            decreases iterations - k,
        {
            let _ = self.start_measure_named(name);
            proof {
                assert(self@.series =~= pre.series.insert(
                    name@,
                    SeriesView {
                        samples: record_all(s0, cap, policy, es),
                        capacity: cap,
                        started: true,
                    },
                ));
            }
            f();
            let e = match self.stop_measure_with(name, policy) {
                Ok(e) => e,
                Err(_) => {
                    assert(false);
                    0
                },
            };
            proof {
                let es0 = es;
                es = es.push(e);
                assert(es.drop_last() =~= es0);
                assert(self@.series =~= pre.series.insert(
                    name@,
                    SeriesView {
                        samples: record_all(s0, cap, policy, es),
                        capacity: cap,
                        started: false,
                    },
                ));
            }
            k += 1;
        }
        self.get_average_named(name)
    }

    /// Runs `f` `iterations` times, timing each run into the default series
    /// under `policy`, and returns the mean of all samples it then holds.
    pub fn measure_closure<F: Fn()>(&mut self, f: F, iterations: usize, policy: StopPolicy) -> (r:
        Result<u64, MeasureError>)
        requires
            old(self).wf(),
            iterations >= 1,
            f.requires(()),
        ensures
            final(self).wf(),
            exists|es: Seq<u64>|
                es.len() == iterations && #[trigger] final(self)@ == (MeasurerView {
                    series: old(self)@.series.insert(
                        default_name(),
                        SeriesView {
                            samples: record_all(
                                old(self)@.series[default_name()].samples,
                                old(self)@.series[default_name()].capacity,
                                policy,
                                es,
                            ),
                            capacity: old(self)@.series[default_name()].capacity,
                            started: false,
                        },
                    ),
                    ..old(self)@
                }),
            final(self)@.series[default_name()].samples.len() > 0,
            r == Ok::<u64, MeasureError>(
                mean_spec(final(self)@.series[default_name()].samples) as u64,
            ),
    {
        proof {
            reveal_strlit("default");
            assert("default"@ =~= default_name());
            self.lemma_wf_view();
        }
        self.measure_closure_named(f, "default", iterations, policy)
    }

    /// The exported text of series `name`: one line per sample, oldest first.
    pub fn export_named(&self, name: &str) -> (r: Result<Vec<u8>, MeasureError>)
        requires
            self.wf(),
        ensures
            match r {
                Ok(t) => self@.series.contains_key(name@) && t@ == lines_of(
                    self@.series[name@].samples,
                ),
                Err(e) => !self@.series.contains_key(name@) && e == MeasureError::SeriesNotFound,
            },
    {
        match self.get_samples_named(name) {
            Err(e) => Err(e),
            Ok(v) => Ok(lines_text(v)),
        }
    }

    /// The exported text of the default series.
    pub fn export(&self) -> (r: Vec<u8>)
        requires
            self.wf(),
        ensures
            r@ == lines_of(self@.series[default_name()].samples),
    {
        lines_text(self.get_samples())
    }

    /// The names of all series, each once.
    pub fn series_names(&self) -> (r: Vec<String>)
        requires
            self.wf(),
        ensures
            forall|k: Seq<char>|
                self@.series.contains_key(k) <==> exists|i: int|
                    0 <= i < r@.len() && #[trigger] r@[i]@ == k,
            forall|i: int, j: int|
                0 <= i < r@.len() && 0 <= j < r@.len() && i != j ==> #[trigger] r@[i]@
                    != #[trigger] r@[j]@,
    {
        let mut r: Vec<String> = Vec::new();
        let mut i: usize = 0;
        while i < self.measurements.len()
            invariant
                self.wf(),
                0 <= i <= self.measurements@.len(),
                r@.len() == i,
                forall|j: int| 0 <= j < i ==> #[trigger] r@[j]@ == self.measurements@[j].name_view(),
            decreases self.measurements@.len() - i,
        {
            r.push(self.measurements[i].name.clone());
            i += 1;
        }
        proof {
            assert forall|k: Seq<char>|
                self@.series.contains_key(k) <==> exists|i: int|
                    0 <= i < r@.len() && #[trigger] r@[i]@ == k by {
                if self@.series.contains_key(k) {
                    let j = choose|j: int|
                        0 <= j < self.measurements@.len()
                            && #[trigger] self.measurements@[j].name_view() == k;
                    assert(r@[j]@ == k);
                }
                if exists|i: int| 0 <= i < r@.len() && #[trigger] r@[i]@ == k {
                    let j = choose|j: int| 0 <= j < r@.len() && #[trigger] r@[j]@ == k;
                    assert(self.measurements@[j].name_view() == k);
                }
            }
            assert forall|a: int, b: int|
                0 <= a < r@.len() && 0 <= b < r@.len() && a != b implies #[trigger] r@[a]@
                != #[trigger] r@[b]@ by {
                assert(self.measurements@[a].name_view() != self.measurements@[b].name_view());
            }
        }
        r
    }
}

} // verus!
