//! Travel along the trips of a feed's `stop_times.txt`: the times onwards from a set of stops,
//! and the route that a set of trips runs on average. The records come in as read from the
//! file, where the stops of a trip follow each other.
use std::collections::{HashMap, HashSet};
use vstd::prelude::*;

use crate::backend::{combined_view, entries_fit, merged, trip_view, GTFSSource, Trip};
use crate::search_data::TripId;
use crate::time::{Duration, Time};

verus! {

broadcast use vstd::std_specs::hash::group_hash_axioms;

/// A record of `stop_times.txt`, with the fields that travel reads.
#[derive(Debug, Clone, Copy, PartialEq, Eq)]
pub struct StopTimeRecord {
    pub trip_id: TripId,
    pub arrival_time: Time,
    pub departure_time: Time,
    pub stop_id: u64,
}

/// The records split into runs of consecutive records of the same trip, in order.
pub open spec fn trip_runs(records: Seq<StopTimeRecord>) -> Seq<Seq<StopTimeRecord>>
    decreases records.len(),
{
    if records.len() == 0 {
        Seq::empty()
    } else {
        let before = trip_runs(records.drop_last());
        if before.len() > 0 && before.last().last().trip_id == records.last().trip_id {
            before.update(before.len() - 1, before.last().push(records.last()))
        } else {
            before.push(seq![records.last()])
        }
    }
}

/// Each run is nonempty, all of one trip, and the last run ends with the last record.
pub proof fn lemma_trip_runs(records: Seq<StopTimeRecord>)
    ensures
        forall|r: int|
            0 <= r < trip_runs(records).len() ==> (#[trigger] trip_runs(records)[r]).len() > 0 && forall|i: int|
                0 <= i < trip_runs(records)[r].len() ==> #[trigger] trip_runs(records)[r][i].trip_id
                    == trip_runs(records)[r][0].trip_id,
        records.len() > 0 ==> trip_runs(records).len() > 0 && trip_runs(records).last().last()
            == records.last(),
        records.len() == 0 ==> trip_runs(records).len() == 0,
    decreases records.len(),
{
    if records.len() > 0 {
        lemma_trip_runs(records.drop_last());
        let before = trip_runs(records.drop_last());
        let runs = trip_runs(records);
        if before.len() > 0 && before.last().last().trip_id == records.last().trip_id {
            assert forall|r: int| 0 <= r < runs.len() implies (#[trigger] runs[r]).len() > 0 && forall|i: int|
                0 <= i < runs[r].len() ==> #[trigger] runs[r][i].trip_id == runs[r][0].trip_id by {
                if r == runs.len() - 1 {
                    let last = before.last();
                    assert(runs[r] == last.push(records.last()));
                    assert(before[before.len() - 1] == last);
                    assert forall|i: int| 0 <= i < runs[r].len() implies #[trigger] runs[r][i].trip_id
                        == runs[r][0].trip_id by {
                        if i < last.len() {
                            assert(last[i].trip_id == last[0].trip_id);
                        } else {
                            assert(last[last.len() - 1].trip_id == last[0].trip_id);
                        }
                    }
                } else {
                    assert(runs[r] == before[r]);
                }
            }
        } else {
            assert forall|r: int| 0 <= r < runs.len() implies (#[trigger] runs[r]).len() > 0 && forall|i: int|
                0 <= i < runs[r].len() ==> #[trigger] runs[r][i].trip_id == runs[r][0].trip_id by {
                if r < before.len() {
                    assert(runs[r] == before[r]);
                }
            }
        }
    }
}

/// The record leaves from one of the stops within the half hour after `time`.
pub open spec fn departs_soon(record: StopTimeRecord, departure_stops: Set<u64>, time: nat) -> bool {
    &&& departure_stops.contains(record.stop_id)
    &&& record.departure_time@ > time
    &&& record.departure_time@ < time + 1800
}

/// The stops of the run from the first that leaves from a departure stop within the half hour
/// onwards, each with the time from `time` to its arrival; `None` when no stop so leaves.
pub open spec fn travel_from(run: Seq<StopTimeRecord>, departure_stops: Set<u64>, time: nat) -> Option<
    Seq<(u64, int)>,
>
    decreases run.len(),
{
    if run.len() == 0 {
        None
    } else {
        let last = run.last();
        match travel_from(run.drop_last(), departure_stops, time) {
            Some(stops) => Some(stops.push((last.stop_id, last.arrival_time@ - time))),
            None => if departs_soon(last, departure_stops, time) {
                Some(seq![(last.stop_id, last.arrival_time@ - time)])
            } else {
                None
            },
        }
    }
}

/// For the runs of the available trips on which some stop leaves from a departure stop
/// within the half hour, in order, the trip and its stops from there on with their times.
pub open spec fn travel_times(
    runs: Seq<Seq<StopTimeRecord>>,
    departure_stops: Set<u64>,
    available: Set<TripId>,
    time: nat,
) -> Seq<(TripId, Seq<(u64, int)>)>
    decreases runs.len(),
{
    if runs.len() == 0 {
        Seq::empty()
    } else {
        let before = travel_times(runs.drop_last(), departure_stops, available, time);
        let run = runs.last();
        if available.contains(run[0].trip_id) {
            match travel_from(run, departure_stops, time) {
                Some(stops) => before.push((run[0].trip_id, stops)),
                None => before,
            }
        } else {
            before
        }
    }
}

/// The stops and times of a trip as numbers.
pub open spec fn timed_stops_view(stops: Seq<(u64, Duration)>) -> Seq<(u64, int)> {
    stops.map_values(|s: (u64, Duration)| (s.0, s.1@))
}

/// The trips and their stops and times as numbers.
pub open spec fn travel_view(trips: Seq<(TripId, Vec<(u64, Duration)>)>) -> Seq<(TripId, Seq<(u64, int)>)> {
    trips.map_values(|t: (TripId, Vec<(u64, Duration)>)| (t.0, timed_stops_view(t.1@)))
}

/// Every time of the records is at most `i32::MAX` seconds.
pub open spec fn times_fit(records: Seq<StopTimeRecord>) -> bool {
    forall|i: int|
        0 <= i < records.len() ==> (#[trigger] records[i]).arrival_time@ <= i32::MAX
            && records[i].departure_time@ <= i32::MAX
}

/// The runs before the last one.
pub open spec fn finished_runs(runs: Seq<Seq<StopTimeRecord>>) -> Seq<Seq<StopTimeRecord>> {
    if runs.len() == 0 {
        runs
    } else {
        runs.drop_last()
    }
}

/// Travel along a run goes on from the travel along all but its last stop.
pub proof fn lemma_travel_from_push(
    run: Seq<StopTimeRecord>,
    record: StopTimeRecord,
    departure_stops: Set<u64>,
    time: nat,
)
    ensures
        travel_from(run.push(record), departure_stops, time) == match travel_from(run, departure_stops, time) {
            Some(stops) => Some(stops.push((record.stop_id, record.arrival_time@ - time))),
            None => if departs_soon(record, departure_stops, time) {
                Some(seq![(record.stop_id, record.arrival_time@ - time)])
            } else {
                None
            },
        },
{
    assert(run.push(record).drop_last() =~= run);
    assert(run.push(record).last() == record);
}

impl GTFSSource {
    /// For each run of an available trip, in the order of `stop_times.txt`, on which a stop of
    /// `departure_stops` is left within the half hour after `time`: the trip and its stops from
    /// the first such one on, each with the time from `time` to the arrival there.
    pub fn non_branching_travel_times_from(
        &self,
        records: &Vec<StopTimeRecord>,
        departure_stops: &HashSet<u64>,
        available_trips: &HashMap<TripId, Trip>,
        time: Time,
    ) -> (trips: Vec<(TripId, Vec<(u64, Duration)>)>)
        requires
            times_fit(records@),
            time@ <= i32::MAX,
        ensures
            travel_view(trips@) == travel_times(
                trip_runs(records@),
                departure_stops@,
                available_trips@.dom(),
                time@,
            ),
    {
        let ghost departs = departure_stops@;
        let ghost available = available_trips@.dom();
        let mut trips: Vec<(TripId, Vec<(u64, Duration)>)> = Vec::new();
        let mut current: Option<TripId> = None;
        let mut current_available: bool = false;
        let mut on_trip: Option<Vec<(u64, Duration)>> = None;
        let mut k: usize = 0;
        while k < records.len()
            invariant
                k <= records@.len(),
                times_fit(records@),
                time@ <= i32::MAX,
                departs == departure_stops@,
                available == available_trips@.dom(),
                (k == 0) == (current is None),
                current is None ==> !current_available,
                current matches Some(id) ==> {
                    &&& trip_runs(records@.take(k as int)).len() > 0
                    &&& trip_runs(records@.take(k as int)).last()[0].trip_id == id
                    &&& current_available == available.contains(id)
                    &&& current_available ==> match on_trip {
                        Some(v) => travel_from(trip_runs(records@.take(k as int)).last(), departs, time@)
                            == Some(timed_stops_view(v@)),
                        None => travel_from(trip_runs(records@.take(k as int)).last(), departs, time@) is None,
                    }
                },
                travel_view(trips@) == travel_times(
                    finished_runs(trip_runs(records@.take(k as int))),
                    departs,
                    available,
                    time@,
                ),
            decreases records@.len() - k,
        {
            let record = records[k];
            let ghost prefix = records@.take(k as int);
            let ghost runs = trip_runs(prefix);
            let ghost new_runs = trip_runs(records@.take(k + 1));
            proof {
                assert(records@.take(k + 1).drop_last() =~= prefix);
                assert(records@.take(k + 1).last() == record);
                lemma_trip_runs(prefix);
                lemma_trip_runs(records@.take(k + 1));
                if k > 0 {
                    assert(runs.last().last() == prefix.last());
                    assert(runs.last()[runs.last().len() - 1].trip_id == runs.last()[0].trip_id);
                }
            }
            let continues = match current {
                Some(id) => id == record.trip_id,
                None => false,
            };
            let ghost run_before: Seq<StopTimeRecord> = if continues {
                runs.last()
            } else {
                Seq::empty()
            };
            if !continues {
                proof {
                    assert(new_runs == runs.push(seq![record]));
                    assert(finished_runs(new_runs) =~= runs);
                    if k > 0 {
                        assert(runs.drop_last().push(runs.last()) =~= runs);
                        assert(finished_runs(runs) == runs.drop_last());
                        let id = current->0;
                        assert(runs.last()[0].trip_id == id);
                        assert(travel_times(runs, departs, available, time@) == if available.contains(id) {
                            match travel_from(runs.last(), departs, time@) {
                                Some(stops) => travel_times(runs.drop_last(), departs, available, time@).push(
                                    (id, stops),
                                ),
                                None => travel_times(runs.drop_last(), departs, available, time@),
                            }
                        } else {
                            travel_times(runs.drop_last(), departs, available, time@)
                        });
                    } else {
                        assert(runs.len() == 0);
                        assert(finished_runs(new_runs) =~= Seq::<Seq<StopTimeRecord>>::empty());
                    }
                }
                if current_available {
                    match on_trip {
                        Some(v) => {
                            let id = match current {
                                Some(id) => id,
                                None => record.trip_id,
                            };
                            let ghost before_push = trips@;
                            let ghost stops = timed_stops_view(v@);
                            trips.push((id, v));
                            proof {
                                assert(trips@ == before_push.push((id, v)));
                                assert(travel_view(trips@) =~= travel_view(before_push).push((id, stops)));
                            }
                        },
                        None => {},
                    }
                }
                current = Some(record.trip_id);
                current_available = available_trips.contains_key(&record.trip_id);
                on_trip = None;
                proof {
                    assert(run_before.push(record) =~= seq![record]);
                    assert(new_runs.last() == seq![record]);
                }
            } else {
                proof {
                    assert(new_runs == runs.update(runs.len() - 1, runs.last().push(record)));
                    assert(finished_runs(new_runs) =~= finished_runs(runs));
                    assert(new_runs.last() == run_before.push(record));
                    assert(runs.last().push(record)[0] == runs.last()[0]);
                }
            }
            proof {
                lemma_travel_from_push(run_before, record, departs, time@);
                assert(new_runs.last()[0].trip_id == record.trip_id);
            }
            if current_available {
                assert(record.arrival_time@ <= i32::MAX);
                let stop = (record.stop_id, record.arrival_time.sub(time));
                let started = on_trip.is_some();
                if started {
                    match on_trip {
                        Some(mut v) => {
                            let ghost before_push = v@;
                            v.push(stop);
                            proof {
                                assert(v@ == before_push.push(stop));
                                assert(timed_stops_view(v@) =~= timed_stops_view(before_push).push(
                                    (record.stop_id, record.arrival_time@ - time@),
                                ));
                            }
                            on_trip = Some(v);
                        },
                        None => {},
                    }
                } else if departure_stops.contains(&record.stop_id) && record.departure_time.is_after(
                    time,
                ) && record.departure_time.is_before(time.add(Duration::minutes(30))) {
                    let v = vec![stop];
                    proof {
                        assert(timed_stops_view(v@) =~= seq![(record.stop_id, record.arrival_time@ - time@)]);
                    }
                    on_trip = Some(v);
                }
            }
            k = k + 1;
        }
        proof {
            assert(records@.take(k as int) =~= records@);
            let runs = trip_runs(records@);
            lemma_trip_runs(records@);
            if k > 0 {
                assert(runs.drop_last().push(runs.last()) =~= runs);
            }
        }
        if current_available {
            match on_trip {
                Some(v) => {
                    let id = match current {
                        Some(id) => id,
                        None => 0,
                    };
                    let ghost before_push = trips@;
                    let ghost stops = timed_stops_view(v@);
                    trips.push((id, v));
                    proof {
                        assert(trips@ == before_push.push((id, v)));
                        assert(travel_view(trips@) =~= travel_view(before_push).push((id, stops)));
                    }
                },
                None => {},
            }
        }
        trips
    }
}

/// The records of each run, as sequences.
pub open spec fn runs_view(runs: Seq<Vec<StopTimeRecord>>) -> Seq<Seq<StopTimeRecord>> {
    runs.map_values(|r: Vec<StopTimeRecord>| r@)
}

/// Splits the records into runs of consecutive records of the same trip.
pub fn split_runs(records: &Vec<StopTimeRecord>) -> (runs: Vec<Vec<StopTimeRecord>>)
    ensures
        runs_view(runs@) == trip_runs(records@),
{
    let mut runs: Vec<Vec<StopTimeRecord>> = Vec::new();
    let mut k: usize = 0;
    while k < records.len()
        invariant
            k <= records@.len(),
            runs_view(runs@) == trip_runs(records@.take(k as int)),
        decreases records@.len() - k,
    {
        let record = records[k];
        proof {
            assert(records@.take(k + 1).drop_last() =~= records@.take(k as int));
            assert(records@.take(k + 1).last() == record);
            lemma_trip_runs(records@.take(k as int));
        }
        let ghost before = runs@;
        let n = runs.len();
        let extends = n > 0 && {
            let last = &runs[n - 1];
            last.len() > 0 && last[last.len() - 1].trip_id == record.trip_id
        };
        if extends {
            let mut last = runs.pop().unwrap();
            last.push(record);
            runs.push(last);
            proof {
                assert(before[n - 1]@ == runs_view(before)[n - 1]);
                assert(runs_view(runs@) =~= runs_view(before).update(
                    n - 1,
                    runs_view(before)[n - 1].push(record),
                ));
            }
        } else {
            let fresh = vec![record];
            proof {
                assert(fresh@ =~= seq![record]);
            }
            runs.push(fresh);
            proof {
                assert(runs@ == before.push(fresh));
                if n > 0 {
                    assert(before[n - 1]@ == runs_view(before)[n - 1]);
                }
                assert(runs_view(runs@) =~= runs_view(before).push(seq![record]));
            }
        }
        k = k + 1;
    }
    proof {
        assert(records@.take(k as int) =~= records@);
    }
    runs
}

/// Every stop of the run has a station.
pub open spec fn stations_known(run: Seq<StopTimeRecord>, stations: Map<u64, u64>) -> bool {
    forall|i: int| 0 <= i < run.len() ==> stations.contains_key(#[trigger] run[i].stop_id)
}

/// The stops of a run, each as its station, with the time since leaving the stop before
/// (zero for the first).
pub open spec fn run_waits(run: Seq<StopTimeRecord>, stations: Map<u64, u64>) -> Seq<(u64, Option<int>)> {
    Seq::new(
        run.len(),
        |i: int|
            (stations[run[i].stop_id], Some(
                if i == 0 {
                    0
                } else {
                    run[i].departure_time@ - run[i - 1].departure_time@
                },
            )),
    )
}

/// The route that the runs of the chosen trips run, merged one after another; `None` where a
/// stop has no station, where a trip does not merge into the route so far, or where a sum of
/// times or a count grows past its bounds.
pub open spec fn averaged_route(
    runs: Seq<Seq<StopTimeRecord>>,
    trips: Set<TripId>,
    stations: Map<u64, u64>,
) -> Option<Seq<(u64, int, int)>>
    decreases runs.len(),
{
    if runs.len() == 0 {
        Some(Seq::empty())
    } else {
        match averaged_route(runs.drop_last(), trips, stations) {
            None => None,
            Some(route) => {
                let run = runs.last();
                if trips.contains(run[0].trip_id) {
                    if stations_known(run, stations) {
                        match merged(route, run_waits(run, stations)) {
                            Some(m) => if entries_fit(m) {
                                Some(m)
                            } else {
                                None
                            },
                            None => None,
                        }
                    } else {
                        None
                    }
                } else {
                    Some(route)
                }
            },
        }
    }
}

/// Where the route over all the runs is known, so it is over the first runs.
pub proof fn lemma_averaged_prefix(
    runs: Seq<Seq<StopTimeRecord>>,
    j: int,
    trips: Set<TripId>,
    stations: Map<u64, u64>,
)
    requires
        0 <= j <= runs.len(),
        averaged_route(runs, trips, stations) is Some,
    ensures
        averaged_route(runs.take(j), trips, stations) is Some,
    decreases runs.len() - j,
{
    if j < runs.len() {
        lemma_averaged_prefix(runs, j + 1, trips, stations);
        assert(runs.take(j + 1).drop_last() =~= runs.take(j));
    } else {
        assert(runs.take(j) =~= runs);
    }
}

/// The stops of the run at their stations, with the time since leaving the stop before.
fn waits_of_run(run: &Vec<StopTimeRecord>, stations: &HashMap<u64, u64>) -> (waits: Vec<(u64, Option<Duration>)>)
    requires
        times_fit(run@),
        stations_known(run@, stations@),
    ensures
        trip_view(waits@) == run_waits(run@, stations@),
{
    let mut waits: Vec<(u64, Option<Duration>)> = Vec::new();
    let mut i: usize = 0;
    while i < run.len()
        invariant
            i <= run@.len(),
            times_fit(run@),
            stations_known(run@, stations@),
            trip_view(waits@) == run_waits(run@, stations@).take(i as int),
        decreases run@.len() - i,
    {
        let record = run[i];
        assert(stations@.contains_key(run@[i as int].stop_id));
        let station = match stations.get(&record.stop_id) {
            Some(s) => *s,
            None => 0,
        };
        let wait = if i == 0 {
            Duration::seconds(0)
        } else {
            assert(run@[i - 1].departure_time@ <= i32::MAX);
            record.departure_time.sub(run[i - 1].departure_time)
        };
        let ghost before = waits@;
        waits.push((station, Some(wait)));
        proof {
            assert(trip_view(waits@) =~= trip_view(before).push(run_waits(run@, stations@)[i as int]));
            assert(run_waits(run@, stations@).take(i + 1) =~= run_waits(run@, stations@).take(i as int).push(
                run_waits(run@, stations@)[i as int],
            ));
        }
        i = i + 1;
    }
    proof {
        assert(run_waits(run@, stations@).take(i as int) =~= run_waits(run@, stations@));
    }
    waits
}

/// Whether `ids` holds `id`.
fn holds_trip(ids: &HashSet<TripId>, id: TripId) -> (b: bool)
    ensures
        b == ids@.contains(id),
{
    ids.contains(&id)
}

impl GTFSSource {
    /// The route that the chosen trips run, in the order of `stop_times.txt`: each trip's
    /// stops at their stations, with the times between them, merged into one route whose
    /// entries sum the times of the trips that pass them and count those trips.
    pub fn get_average_stop_times_on_trips(
        &self,
        records: &Vec<StopTimeRecord>,
        trip_ids: &HashSet<TripId>,
        stations: &HashMap<u64, u64>,
    ) -> (combined: Vec<(u64, Duration, u16)>)
        requires
            times_fit(records@),
            averaged_route(trip_runs(records@), trip_ids@, stations@) is Some,
        ensures
            averaged_route(trip_runs(records@), trip_ids@, stations@) == Some(combined_view(combined@)),
    {
        let runs = split_runs(records);
        let ghost all = runs_view(runs@);
        let mut combined: Vec<(u64, Duration, u16)> = Vec::new();
        let mut j: usize = 0;
        proof {
            assert(combined_view(combined@) =~= Seq::<(u64, int, int)>::empty());
            assert(all.take(0) =~= Seq::<Seq<StopTimeRecord>>::empty());
        }
        while j < runs.len()
            invariant
                j <= runs@.len(),
                all == runs_view(runs@),
                all == trip_runs(records@),
                times_fit(records@),
                averaged_route(all, trip_ids@, stations@) is Some,
                averaged_route(all.take(j as int), trip_ids@, stations@) == Some(combined_view(combined@)),
            decreases runs@.len() - j,
        {
            let run = &runs[j];
            proof {
                lemma_trip_runs(records@);
                lemma_averaged_prefix(all, j + 1, trip_ids@, stations@);
                assert(all.take(j + 1).drop_last() =~= all.take(j as int));
                assert(all.take(j + 1).last() == run@);
                assert(all[j as int] == run@);
                lemma_run_times_fit(records@, j as int);
            }
            if holds_trip(trip_ids, run[0].trip_id) {
                let waits = waits_of_run(run, stations);
                GTFSSource::merge_trip(&mut combined, waits);
            }
            j = j + 1;
        }
        proof {
            assert(all.take(j as int) =~= all);
        }
        combined
    }
}

/// The times of each run fit as those of the records do.
pub proof fn lemma_run_times_fit(records: Seq<StopTimeRecord>, r: int)
    requires
        times_fit(records),
        0 <= r < trip_runs(records).len(),
    ensures
        times_fit(trip_runs(records)[r]),
    decreases records.len(),
{
    let before = trip_runs(records.drop_last());
    assert(times_fit(records.drop_last())) by {
        assert forall|i: int| 0 <= i < records.drop_last().len() implies (#[trigger] records.drop_last()[i]).arrival_time@
            <= i32::MAX && records.drop_last()[i].departure_time@ <= i32::MAX by {
            assert(records.drop_last()[i] == records[i]);
        }
    }
    let last = records.last();
    assert(last == records[records.len() - 1]);
    if before.len() > 0 && before.last().last().trip_id == last.trip_id {
        lemma_run_times_fit(records.drop_last(), r);
        if r == before.len() - 1 {
            assert(trip_runs(records)[r] == before[r].push(last));
        } else {
            assert(trip_runs(records)[r] == before[r]);
        }
    } else {
        if r < before.len() {
            lemma_run_times_fit(records.drop_last(), r);
            assert(trip_runs(records)[r] == before[r]);
        } else {
            assert(trip_runs(records)[r] == seq![last]);
        }
    }
}

} // verus!
