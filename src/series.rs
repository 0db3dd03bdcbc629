//! A named, capacity-bounded buffer of elapsed-time samples with its timer mark.
use vstd::prelude::*;

verus! {

/// What a stop does once the buffer holds `capacity` samples.
#[derive(Clone, Copy, Debug, PartialEq, Eq, Structural)]
pub enum StopPolicy {
    /// Keep the buffer as it is and drop the new sample.
    Append,
    /// Evict the oldest sample, then add the new one.
    Slide,
}

/// The buffer after one sample `e` is recorded into `s`.
pub open spec fn record_spec(s: Seq<u64>, capacity: nat, policy: StopPolicy, e: u64) -> Seq<u64> {
    if s.len() < capacity {
        s.push(e)
    } else {
        match policy {
            StopPolicy::Append => s,
            StopPolicy::Slide => s.push(e).drop_first(),
        }
    }
}

/// The buffer after the samples `es` are recorded into `s`, in order.
pub open spec fn record_all(s: Seq<u64>, capacity: nat, policy: StopPolicy, es: Seq<u64>) -> Seq<
    u64,
>
    decreases es.len(),
{
    if es.len() == 0 {
        s
    } else {
        record_spec(record_all(s, capacity, policy, es.drop_last()), capacity, policy, es.last())
    }
}

/// The last `c` elements of `x`, or all of `x` when it is shorter.
pub open spec fn latest(x: Seq<u64>, c: nat) -> Seq<u64> {
    if x.len() <= c {
        x
    } else {
        x.subrange(x.len() - c, x.len() as int)
    }
}

/// Recording under `Slide` keeps exactly the most recent `capacity` values.
pub proof fn lemma_slide_keeps_latest(s: Seq<u64>, capacity: nat, es: Seq<u64>)
    requires
        capacity > 0,
        s.len() <= capacity,
    ensures
        record_all(s, capacity, StopPolicy::Slide, es) == latest(s + es, capacity),
    decreases es.len(),
{
    if es.len() > 0 {
        let es0 = es.drop_last();
        lemma_slide_keeps_latest(s, capacity, es0);
        let x0 = s + es0;
        let x = s + es;
        assert(x =~= x0.push(es.last()));
        let t = latest(x0, capacity);
        if x0.len() < capacity {
            assert(record_spec(t, capacity, StopPolicy::Slide, es.last()) =~= latest(x, capacity));
        } else {
            assert(t.push(es.last()).drop_first() =~= latest(x, capacity));
        }
    }
}

/// Starting from an empty buffer of capacity `capacity`, more than `capacity`
/// stops under `Slide` leave exactly the last `capacity` values, in the order
/// they were produced.
pub proof fn lemma_slide_holds_last(capacity: nat, es: Seq<u64>)
    requires
        capacity > 0,
        es.len() > capacity,
    ensures
        record_all(Seq::empty(), capacity, StopPolicy::Slide, es).len() == capacity,
        record_all(Seq::empty(), capacity, StopPolicy::Slide, es) == es.subrange(
            es.len() - capacity,
            es.len() as int,
        ),
{
    lemma_slide_keeps_latest(Seq::empty(), capacity, es);
    assert(Seq::<u64>::empty() + es =~= es);
}

/// Under `Append`, once the buffer holds `capacity` samples, further stops
/// change neither its length nor its contents.
pub proof fn lemma_append_frozen(s: Seq<u64>, capacity: nat, es: Seq<u64>)
    requires
        s.len() == capacity,
    ensures
        record_all(s, capacity, StopPolicy::Append, es) == s,
    decreases es.len(),
{
    if es.len() > 0 {
        lemma_append_frozen(s, capacity, es.drop_last());
    }
}

/// What a series is: its samples, oldest first, its capacity, and whether a
/// timer mark is set.
pub struct SeriesView {
    pub samples: Seq<u64>,
    pub capacity: nat,
    pub started: bool,
}

/// One named series.
pub(crate) struct Series {
    pub(crate) name: String,
    pub(crate) samples: Vec<u64>,
    pub(crate) capacity: usize,
    pub(crate) mark: Option<std::time::Instant>,
}

impl View for Series {
    type V = SeriesView;

    closed spec fn view(&self) -> SeriesView {
        SeriesView {
            samples: self.samples@,
            capacity: self.capacity as nat,
            started: self.mark.is_some(),
        }
    }
}

impl Series {
    /// The buffer holds no more than its capacity, which is positive.
    pub(crate) closed spec fn wf(&self) -> bool {
        self.capacity > 0 && self.samples@.len() <= self.capacity
    }

    /// What a well-formed series guarantees of its view.
    pub(crate) proof fn lemma_wf_view(&self)
        requires
            self.wf(),
        ensures
            self@.capacity > 0,
            self@.samples.len() <= self@.capacity,
    {
    }

    /// The series' name.
    pub(crate) open spec fn name_view(&self) -> Seq<char> {
        self.name@
    }

    /// An empty series with no mark.
    pub(crate) fn new(name: String, capacity: usize) -> (r: Series)
        requires
            capacity > 0,
        ensures
            r.wf(),
            r.name_view() == name@,
            r@ == (SeriesView { samples: Seq::empty(), capacity: capacity as nat, started: false }),
    {
        Series { name, samples: Vec::new(), capacity, mark: None }
    }

    /// Records the elapsed time `e` under `policy`.
    pub(crate) fn record(&mut self, e: u64, policy: StopPolicy)
        requires
            old(self).wf(),
        ensures
            final(self).wf(),
            final(self).name_view() == old(self).name_view(),
            final(self)@ == (SeriesView {
                samples: record_spec(old(self)@.samples, old(self)@.capacity, policy, e),
                ..old(self)@
            }),
    {
        if self.samples.len() < self.capacity {
            self.samples.push(e);
        } else {
            match policy {
                StopPolicy::Append => {},
                StopPolicy::Slide => {
                    self.samples.remove(0);
                    self.samples.push(e);
                    assert(self.samples@ =~= old(self).samples@.push(e).drop_first());
                },
            }
        }
    }

    /// The samples, oldest first.
    pub(crate) fn samples(&self) -> (r: &Vec<u64>)
        ensures
            r@ == self@.samples,
    {
        &self.samples
    }

    /// Sets the timer mark to the current instant.
    pub(crate) fn start(&mut self)
        requires
            old(self).wf(),
        ensures
            final(self).wf(),
            final(self).name_view() == old(self).name_view(),
            final(self)@ == (SeriesView { started: true, ..old(self)@ }),
    {
        self.mark = Some(std::time::Instant::now());
    }

    /// Clears the timer mark and returns the nanoseconds since it was set,
    /// or `None` when no mark is set.
    pub(crate) fn take_elapsed(&mut self) -> (r: Option<u64>)
        requires
            old(self).wf(),
        ensures
            final(self).wf(),
            final(self).name_view() == old(self).name_view(),
            r.is_some() == old(self)@.started,
            final(self)@ == (SeriesView { started: false, ..old(self)@ }),
    {
        match self.mark {
            None => None,
            Some(m) => {
                let e = crate::clock::nanos_since(&m);
                self.mark = None;
                Some(e)
            },
        }
    }
}

} // verus!
