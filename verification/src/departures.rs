//! The departures from one stop, ordered by departure time.
use vstd::prelude::*;

use crate::time::{Period, Time};

verus! {

/// Identifies a trip.
pub type TripId = u64;

/// Refers to a specific stop of a specific trip (an arrival or departure): the trip and the
/// position of the stop in that trip.
pub type TripStopRef = (TripId, usize);

/// The departures of a timetable as `(time, refs)` entries.
pub type DepartureEntries = Seq<(nat, Seq<TripStopRef>)>;

/// The times of the entries strictly increase.
pub open spec fn strictly_sorted(entries: DepartureEntries) -> bool {
    forall|i: int, j: int| 0 <= i < j < entries.len() ==> entries[i].0 < entries[j].0
}

/// The number of leading entries whose time is before `t`: where `t` belongs.
pub open spec fn insertion_index(entries: DepartureEntries, t: nat) -> nat
    decreases entries.len(),
{
    if entries.len() == 0 {
        0
    } else if entries[0].0 >= t {
        0
    } else {
        1 + insertion_index(entries.drop_first(), t)
    }
}

/// The entries after adding the departure `r` at time `t`: appended to the refs of the entry of
/// that time, or a new entry at its place in time order.
pub open spec fn insert_departure(entries: DepartureEntries, t: nat, r: TripStopRef) -> DepartureEntries {
    let i = insertion_index(entries, t) as int;
    if i < entries.len() && entries[i].0 == t {
        entries.update(i, (t, entries[i].1.push(r)))
    } else {
        entries.insert(i, (t, seq![r]))
    }
}

/// Every departure ref of the entries, wherever it is, satisfies `p`.
pub open spec fn all_refs(entries: DepartureEntries, p: spec_fn(TripStopRef) -> bool) -> bool {
    forall|i: int, j: int| 0 <= i < entries.len() && 0 <= j < entries[i].1.len() ==> p(#[trigger] entries[i].1[j])
}

/// The refs that `refs_in` selects are refs of the entries.
pub proof fn lemma_refs_in_from_entries(entries: DepartureEntries, start: nat, end: nat, p: spec_fn(TripStopRef) -> bool)
    requires
        all_refs(entries, p),
    ensures
        forall|k: int| 0 <= k < refs_in(entries, start, end).len() ==> p(#[trigger] refs_in(entries, start, end)[k]),
    decreases entries.len(),
{
    if entries.len() > 0 {
        let init = entries.drop_last();
        assert forall|i: int, j: int| 0 <= i < init.len() && 0 <= j < init[i].1.len() implies p(#[trigger] init[i].1[j]) by {
            assert(init[i] == entries[i]);
        }
        lemma_refs_in_from_entries(init, start, end, p);
        let last = entries.last();
        let r = refs_in(entries, start, end);
        let a = refs_in(init, start, end);
        assert forall|k: int| 0 <= k < r.len() implies p(#[trigger] r[k]) by {
            if k < a.len() {
                assert(r[k] == a[k]);
            } else {
                assert(r[k] == last.1[k - a.len()]);
                assert(entries[entries.len() - 1] == last);
            }
        }
    }
}

/// The departure refs of the entries with a time in `[start, end)`, in the entries' order.
pub open spec fn refs_in(entries: DepartureEntries, start: nat, end: nat) -> Seq<TripStopRef>
    decreases entries.len(),
{
    if entries.len() == 0 {
        Seq::empty()
    } else {
        let last = entries.last();
        refs_in(entries.drop_last(), start, end) + if start <= last.0 < end {
            last.1
        } else {
            Seq::empty()
        }
    }
}

/// The departures from a stop: for each departure time, the trip stops that leave then, in the
/// order they were added.
#[derive(Debug)]
pub struct Departures {
    entries: Vec<(Time, Vec<TripStopRef>)>,
}

impl View for Departures {
    type V = DepartureEntries;

    /// The entries in time order, each time in seconds since midnight.
    closed spec fn view(&self) -> DepartureEntries {
        Seq::new(self.entries@.len(), |i: int| (self.entries@[i].0@, self.entries@[i].1@))
    }
}

/// When all entries before `i` are before `t` and the one at `i` (if any) is not, `t`
/// belongs at `i`.
proof fn lemma_insertion_index(entries: DepartureEntries, t: nat, i: int)
    requires
        0 <= i <= entries.len(),
        forall|j: int| 0 <= j < i ==> entries[j].0 < t,
        i < entries.len() ==> entries[i].0 >= t,
    ensures
        insertion_index(entries, t) == i,
    decreases entries.len(),
{
    if entries.len() > 0 && i > 0 {
        lemma_insertion_index(entries.drop_first(), t, i - 1);
    }
}

/// Adding a departure keeps the times strictly increasing.
proof fn lemma_insert_sorted(entries: DepartureEntries, t: nat, r: TripStopRef, i: int)
    requires
        strictly_sorted(entries),
        0 <= i <= entries.len(),
        forall|j: int| 0 <= j < i ==> entries[j].0 < t,
        i < entries.len() ==> entries[i].0 >= t,
        insertion_index(entries, t) == i,
    ensures
        strictly_sorted(insert_departure(entries, t, r)),
{
    let n = insert_departure(entries, t, r);
    if i < entries.len() && entries[i].0 == t {
        assert forall|a: int, b: int| 0 <= a < b < n.len() implies n[a].0 < n[b].0 by {
            assert(n[a].0 == entries[a].0);
            assert(n[b].0 == entries[b].0);
        }
    } else {
        assert forall|a: int, b: int| 0 <= a < b < n.len() implies n[a].0 < n[b].0 by {
            if b < i {
            } else if b == i {
                assert(n[a] == entries[a]);
            } else if a < i {
                assert(n[b] == entries[b - 1]);
            } else if a == i {
                assert(n[b] == entries[b - 1]);
                assert(entries[i].0 >= t);
                if b - 1 > i {
                    assert(entries[i].0 < entries[b - 1].0);
                }
            } else {
                assert(n[a] == entries[a - 1]);
                assert(n[b] == entries[b - 1]);
            }
        }
    }
}

/// The place of a new time is within the entries or just after them.
proof fn lemma_insertion_index_bound(entries: DepartureEntries, t: nat)
    ensures
        insertion_index(entries, t) <= entries.len(),
    decreases entries.len(),
{
    if entries.len() > 0 && entries[0].0 < t {
        lemma_insertion_index_bound(entries.drop_first(), t);
    }
}

/// Adding a departure that satisfies `p` to entries whose departures all do keeps them so.
pub proof fn lemma_all_refs_insert(entries: DepartureEntries, t: nat, r: TripStopRef, p: spec_fn(TripStopRef) -> bool)
    requires
        all_refs(entries, p),
        p(r),
    ensures
        all_refs(insert_departure(entries, t, r), p),
{
    lemma_insertion_index_bound(entries, t);
    let i = insertion_index(entries, t) as int;
    let n = insert_departure(entries, t, r);
    assert forall|a: int, b: int| 0 <= a < n.len() && 0 <= b < n[a].1.len() implies p(#[trigger] n[a].1[b]) by {
        if i < entries.len() && entries[i].0 == t {
            if a == i {
                if b < entries[i].1.len() {
                    assert(n[a].1[b] == entries[i].1[b]);
                }
            } else {
                assert(n[a] == entries[a]);
            }
        } else {
            if a < i {
                assert(n[a] == entries[a]);
            } else if a > i {
                assert(n[a] == entries[a - 1]);
            }
        }
    }
}

/// Every departure ref of the entries that satisfies `g` has `f` of it equal to the time of
/// its entry.
pub open spec fn all_refs_timed(
    entries: DepartureEntries,
    g: spec_fn(TripStopRef) -> bool,
    f: spec_fn(TripStopRef) -> nat,
) -> bool {
    forall|i: int, j: int|
        0 <= i < entries.len() && 0 <= j < entries[i].1.len() && g(#[trigger] entries[i].1[j]) ==> f(
            entries[i].1[j],
        ) == entries[i].0
}

/// The refs that `refs_in` selects and that satisfy `g` have `f` of them in `[start, end)`.
pub proof fn lemma_refs_in_timed(
    entries: DepartureEntries,
    start: nat,
    end: nat,
    g: spec_fn(TripStopRef) -> bool,
    f: spec_fn(TripStopRef) -> nat,
)
    requires
        all_refs_timed(entries, g, f),
    ensures
        forall|k: int| 0 <= k < refs_in(entries, start, end).len() && g(#[trigger] refs_in(entries, start, end)[k])
            ==> start <= f(refs_in(entries, start, end)[k]) < end,
    decreases entries.len(),
{
    if entries.len() > 0 {
        let init = entries.drop_last();
        assert forall|i: int, j: int| 0 <= i < init.len() && 0 <= j < init[i].1.len() && g(#[trigger] init[i].1[j])
            implies f(init[i].1[j]) == init[i].0 by {
            assert(init[i] == entries[i]);
        }
        lemma_refs_in_timed(init, start, end, g, f);
        let last = entries.last();
        let r = refs_in(entries, start, end);
        let a = refs_in(init, start, end);
        assert forall|k: int| 0 <= k < r.len() && g(#[trigger] r[k]) implies start <= f(r[k]) < end by {
            if k < a.len() {
                assert(r[k] == a[k]);
            } else {
                assert(r[k] == last.1[k - a.len()]);
                assert(entries[entries.len() - 1] == last);
            }
        }
    }
}

/// Adding a departure `r` at time `t` where `f(r)` is `t` (if `g(r)`) keeps the refs timed.
pub proof fn lemma_all_refs_timed_insert(
    entries: DepartureEntries,
    t: nat,
    r: TripStopRef,
    g: spec_fn(TripStopRef) -> bool,
    f: spec_fn(TripStopRef) -> nat,
)
    requires
        all_refs_timed(entries, g, f),
        g(r) ==> f(r) == t,
    ensures
        all_refs_timed(insert_departure(entries, t, r), g, f),
{
    lemma_insertion_index_bound(entries, t);
    let i = insertion_index(entries, t) as int;
    let n = insert_departure(entries, t, r);
    assert forall|a: int, b: int| 0 <= a < n.len() && 0 <= b < n[a].1.len() && g(#[trigger] n[a].1[b]) implies f(
        n[a].1[b],
    ) == n[a].0 by {
        if i < entries.len() && entries[i].0 == t {
            if a == i {
                if b < entries[i].1.len() {
                    assert(n[a].1[b] == entries[i].1[b]);
                }
            } else {
                assert(n[a] == entries[a]);
            }
        } else {
            if a < i {
                assert(n[a] == entries[a]);
            } else if a > i {
                assert(n[a] == entries[a - 1]);
            }
        }
    }
}

/// A copy of the refs.
pub fn copy_refs(refs: &Vec<TripStopRef>) -> (v: Vec<TripStopRef>)
    ensures
        v@ == refs@,
{
    let mut v: Vec<TripStopRef> = Vec::new();
    let mut j: usize = 0;
    while j < refs.len()
        invariant
            j <= refs@.len(),
            v@ == refs@.take(j as int),
        decreases refs@.len() - j,
    {
        v.push(refs[j]);
        j = j + 1;
        assert(v@ =~= refs@.take(j as int));
    }
    assert(refs@.take(j as int) =~= refs@);
    v
}

impl Departures {
    #[verifier::type_invariant]
    spec fn sorted(self) -> bool {
        strictly_sorted(self@)
    }

    /// No departures.
    pub fn new() -> (d: Departures)
        ensures
            d@ == DepartureEntries::empty(),
    {
        let d = Departures { entries: Vec::new() };
        assert(d@ =~= DepartureEntries::empty());
        d
    }

    /// Adds the departure `r` at time `time`.
    pub fn insert(&mut self, time: Time, r: TripStopRef)
        ensures
            final(self)@ == insert_departure(old(self)@, time@, r),
            strictly_sorted(final(self)@),
    {
        proof {
            use_type_invariant(&*self);
        }
        let ghost old_view = self@;
        let mut i: usize = 0;
        while i < self.entries.len() && self.entries[i].0.is_before(time)
            invariant
                i <= self.entries@.len(),
                self@ == old_view,
                strictly_sorted(old_view),
                forall|j: int| 0 <= j < i ==> old_view[j].0 < time@,
            decreases self.entries@.len() - i,
        {
            i = i + 1;
        }
        proof {
            lemma_insertion_index(old_view, time@, i as int);
            lemma_insert_sorted(old_view, time@, r, i as int);
        }
        let mut entries = Vec::new();
        std::mem::swap(&mut entries, &mut self.entries);
        if i < entries.len() && entries[i].0.seconds_since_midnight() == time.seconds_since_midnight() {
            let (t, mut refs) = entries.remove(i);
            refs.push(r);
            entries.insert(i, (t, refs));
            proof {
                let d = Departures { entries };
                assert(d@ =~= insert_departure(old_view, time@, r));
            }
            self.entries = entries;
        } else {
            let mut refs = Vec::new();
            refs.push(r);
            entries.insert(i, (time, refs));
            proof {
                let d = Departures { entries };
                assert(d@ =~= insert_departure(old_view, time@, r));
            }
            self.entries = entries;
        }
    }

    /// A copy of these departures.
    pub fn duplicate(&self) -> (d: Departures)
        ensures
            d@ == self@,
    {
        proof {
            use_type_invariant(self);
        }
        let mut entries: Vec<(Time, Vec<TripStopRef>)> = Vec::new();
        let mut k: usize = 0;
        while k < self.entries.len()
            invariant
                k <= self.entries@.len(),
                entries@.len() == k,
                forall|i: int| 0 <= i < k ==> #[trigger] entries@[i].0 == self.entries@[i].0
                    && entries@[i].1@ == self.entries@[i].1@,
            decreases self.entries@.len() - k,
        {
            let refs = copy_refs(&self.entries[k].1);
            entries.push((self.entries[k].0, refs));
            k = k + 1;
        }
        proof {
            let g = Departures { entries };
            assert(g@ =~= self@);
        }
        Departures { entries }
    }

    /// The trip stops leaving in `period`, in order of departure time.
    pub fn range(&self, period: Period) -> (v: Vec<TripStopRef>)
        ensures
            v@ == refs_in(self@, period@.0, period@.1),
    {
        let start = period.start();
        let end = period.end();
        let mut v: Vec<TripStopRef> = Vec::new();
        let mut k: usize = 0;
        while k < self.entries.len()
            invariant
                k <= self@.len(),
                start@ == period@.0,
                end@ == period@.1,
                v@ == refs_in(self@.take(k as int), period@.0, period@.1),
            decreases self@.len() - k,
        {
            let t = self.entries[k].0;
            proof {
                assert(self@.take(k + 1).drop_last() =~= self@.take(k as int));
            }
            if !t.is_before(start) && t.is_before(end) {
                let refs = &self.entries[k].1;
                let mut j: usize = 0;
                let ghost before = v@;
                while j < refs.len()
                    invariant
                        j <= refs@.len(),
                        v@ == before + refs@.take(j as int),
                    decreases refs@.len() - j,
                {
                    v.push(refs[j]);
                    j = j + 1;
                    assert(v@ =~= before + refs@.take(j as int));
                }
                assert(refs@.take(j as int) =~= refs@);
            }
            k = k + 1;
        }
        assert(self@.take(k as int) =~= self@);
        v
    }
}

} // verus!
