//! The search for the fastest journeys from an origin station: a tree of all the earliest
//! arrivals at stops within a period, reached by trips, connections to trips and transfers.
//!
//! Candidate arrivals wait in a queue and are taken earliest first. An arrival that is the
//! earliest at its stop leads on: to transfers from the stop and its station, and to the trips
//! that leave from it. Arrivals by trip that are late are kept per trip, in case that trip later
//! reaches a new station; then they are handed out too.
use std::collections::{HashMap, HashSet, VecDeque};
use vstd::prelude::*;

use crate::search_data::{
    Day, FilterBuilder, GTFSData, Route, RouteType, ServiceId, Stop, StopId, StopTime, Transfer, Trip, TripId, services_on,
    stop_refs_valid, stop_times_match,
};
use crate::text::starts_with;
use crate::time::{Duration, Period, Time};

verus! {

broadcast use {vstd::std_specs::hash::group_hash_axioms, crate::time::lemma_time_fits, crate::time::lemma_period_fits};

/// How a queued arrival at a stop came about.
#[derive(Debug, Clone, Copy)]
pub enum QueueItemVariant<'r> {
    /// Riding a trip from its previous stop.
    StopOnTrip {
        departure_time: Time,
        from_stop: &'r Stop,
        trip_id: TripId,
        route: &'r Route,
        /// The arrival at the stop the trip comes from.
        previous_arrival_time: Time,
        /// The departure of the trip from the stop arrived at.
        next_departure_time: Time,
    },
    /// Waiting at a stop for a trip to leave.
    Connection { departure_time: Time, from_stop: &'r Stop, trip_id: TripId, route: &'r Route },
    /// Walking from another stop.
    Transfer { departure_time: Time, from_stop: &'r Stop },
    /// Starting the search at an origin station.
    OriginStation,
}

/// A candidate arrival at a stop.
#[derive(Debug, Clone, Copy)]
pub struct QueueItem<'r> {
    pub arrival_time: Time,
    pub to_stop: &'r Stop,
    pub variant: QueueItemVariant<'r>,
}

/// What the search hands out: stations reached, transfers, boardings and stretches of trips.
#[derive(Debug, Clone, Copy)]
pub enum Item<'r> {
    Transfer { departure_time: Time, arrival_time: Time, from_stop: &'r Stop, to_stop: &'r Stop },
    ConnectionToTrip {
        departure_time: Time,
        arrival_time: Time,
        from_stop: &'r Stop,
        to_stop: &'r Stop,
        route_name: &'r str,
        route_type: RouteType,
        route_color: &'r str,
        trip_id: TripId,
    },
    SegmentOfTrip {
        departure_time: Time,
        arrival_time: Time,
        from_stop: &'r Stop,
        to_stop: &'r Stop,
        trip_id: TripId,
        route_name: &'r str,
        route_type: RouteType,
        route_color: &'r str,
    },
    /// The first arrival at a station; `name_trunk_length` is the length of the start of its
    /// short name that it shares with the stop it was reached from by trip (0 if none).
    Station { stop: &'r Stop, earliest_arrival: Time, name_trunk_length: usize },
}

/// The largest time, as an integer.
pub open spec fn time_max() -> int {
    u32::MAX as int
}

/// The route of a queued item on a trip.
pub open spec fn route_of(x: QueueItem) -> Option<Route> {
    match x.variant {
        QueueItemVariant::Connection { route, .. } => Some(*route),
        QueueItemVariant::StopOnTrip { route, .. } => Some(*route),
        _ => None,
    }
}

/// A queued item on a trip runs a kind of route that is searched.
pub open spec fn route_ok(x: QueueItem, route_types: Seq<RouteType>) -> bool {
    route_of(x) matches Some(r) ==> route_types.contains(r.route_type)
}

/// An item on a trip runs a kind of route that is searched.
pub open spec fn item_route_ok(x: Item, route_types: Seq<RouteType>) -> bool {
    match x {
        Item::ConnectionToTrip { route_type, .. } => route_types.contains(route_type),
        Item::SegmentOfTrip { route_type, .. } => route_types.contains(route_type),
        _ => true,
    }
}

/// A station handed out is a stop of the data; a trip handed out is a trip of the data.
pub open spec fn item_in_data(x: Item, data: GTFSData) -> bool {
    match x {
        Item::Station { stop, .. } => is_data_stop(data, *stop),
        Item::ConnectionToTrip { trip_id, .. } => data.trip_map().contains_key(trip_id),
        Item::SegmentOfTrip { trip_id, .. } => data.trip_map().contains_key(trip_id),
        _ => true,
    }
}

/// The stop a processed item arrives at, and that stop's parent station when the data has it.
pub open spec fn item_stops(x: QueueItem, data: GTFSData) -> Set<StopId> {
    match x.to_stop.spec_parent_station() {
        Some(p) => if data.stop_map().contains_key(p) {
            set![x.to_stop.stop_id, p]
        } else {
            set![x.to_stop.stop_id]
        },
        None => set![x.to_stop.stop_id],
    }
}

/// The stops of the processed items, with their parent stations.
pub open spec fn items_stops(items: Seq<QueueItem>, data: GTFSData) -> Set<StopId>
    decreases items.len(),
{
    if items.len() == 0 {
        Set::empty()
    } else {
        items_stops(items.drop_last(), data).union(item_stops(items.last(), data))
    }
}

/// The trips of the processed items that are on trips.
pub open spec fn items_trips(items: Seq<QueueItem>) -> Set<TripId>
    decreases items.len(),
{
    if items.len() == 0 {
        Set::empty()
    } else {
        match trip_of(items.last().variant) {
            Some(t) => items_trips(items.drop_last()).insert(t),
            None => items_trips(items.drop_last()),
        }
    }
}

/// The stops of all the blocks of processed items, with their parent stations.
pub open spec fn blocks_stops(blocks: Seq<Seq<QueueItem>>, data: GTFSData) -> Set<StopId>
    decreases blocks.len(),
{
    if blocks.len() == 0 {
        Set::empty()
    } else {
        blocks_stops(blocks.drop_last(), data).union(items_stops(blocks.last(), data))
    }
}

/// The trips of all the blocks of processed items.
pub open spec fn blocks_trips(blocks: Seq<Seq<QueueItem>>) -> Set<TripId>
    decreases blocks.len(),
{
    if blocks.len() == 0 {
        Set::empty()
    } else {
        blocks_trips(blocks.drop_last()).union(items_trips(blocks.last()))
    }
}

/// The blocks are what calls taking candidate arrivals from the queue return, one after the
/// other, each one not empty: the i-th call takes the search from `states[i]` to
/// `states[i + 1]`.
pub open spec fn processed_blocks<'r>(states: Seq<Plotter<'r>>, blocks: Seq<Seq<QueueItem<'r>>>) -> bool {
    &&& states.len() == blocks.len() + 1
    &&& forall|i: int|
        #![trigger blocks[i]]
        0 <= i < blocks.len() ==> blocks[i].len() > 0 && states[i].raw_step(states[i + 1], blocks[i])
}

/// A search that has just been set up: over `period` of `data` on the services of `day`,
/// for the kinds of route `route_types`, with nothing but `origin` queued, reached at the
/// start, and nothing reached, handed out or set aside yet.
pub open spec fn fresh_search<'r>(
    p: Plotter<'r>,
    data: GTFSData,
    day: Day,
    period: (nat, nat),
    origin: Stop,
    route_types: Set<RouteType>,
) -> bool {
    &&& p.wf()
    &&& p.data_of() == data
    &&& p.period_of() == period
    &&& p.service_set() == services_on(data.day_services(), day)
    &&& p.route_type_seq().to_set() == route_types
    &&& p.queued().len() == 1
    &&& *p.queued()[0].to_stop == origin
    &&& p.queued()[0].arrival_time@ == period.0
    &&& p.queued()[0].variant is OriginStation
    &&& p.pending().len() == 0
    &&& p.arrivals() == Map::<StopId, Time>::empty()
    &&& p.emitted() == Set::<StopId>::empty()
    &&& p.enqueued() == Set::<TripId>::empty()
    &&& p.slow() == Map::<TripId, Seq<QueueItem<'r>>>::empty()
}

/// The items are those that calls of `next`, one after the other, hand out: the i-th call
/// takes the search from `states[i]` to `states[i + 1]`.
pub open spec fn handed_out<'r>(states: Seq<Plotter<'r>>, items: Seq<Item<'r>>) -> bool {
    &&& states.len() == items.len() + 1
    &&& forall|i: int| #![trigger items[i]] 0 <= i < items.len() ==> states[i].hands_out(states[i + 1], Some(items[i]))
}

/// The key by which queue items are ordered, compared place by place: the earliest arrival
/// first; between stops on trips arriving at the same time, the earliest previous arrival,
/// departure and next departure first; then by variant, by their fields, and by the stop
/// arrived at.
pub open spec fn priority(q: QueueItem) -> Seq<int> {
    let a = time_max() - q.arrival_time@;
    let to = q.to_stop.stop_id as int;
    match q.variant {
        QueueItemVariant::StopOnTrip {
            departure_time: d,
            from_stop,
            trip_id,
            route,
            previous_arrival_time: p,
            next_departure_time: n,
        } => seq![
            a,
            0,
            time_max() - p@,
            time_max() - d@,
            time_max() - n@,
            d@ as int,
            from_stop.stop_id as int,
            trip_id as int,
            route.route_id as int,
            p@ as int,
            n@ as int,
            to,
        ],
        QueueItemVariant::Connection { departure_time: d, from_stop, trip_id, route } => seq![
            a,
            1,
            0,
            0,
            0,
            d@ as int,
            from_stop.stop_id as int,
            trip_id as int,
            route.route_id as int,
            0,
            0,
            to,
        ],
        QueueItemVariant::Transfer { departure_time: d, from_stop } => seq![
            a,
            2,
            0,
            0,
            0,
            d@ as int,
            from_stop.stop_id as int,
            0,
            0,
            0,
            0,
            to,
        ],
        QueueItemVariant::OriginStation => seq![a, 3, 0, 0, 0, 0, 0, 0, 0, 0, 0, to],
    }
}

/// `a` is greater than `b` in lexicographic order.
pub open spec fn lex_greater(a: Seq<int>, b: Seq<int>) -> bool
    decreases a.len(),
{
    if a.len() == 0 || b.len() == 0 {
        false
    } else if a[0] != b[0] {
        a[0] > b[0]
    } else {
        lex_greater(a.drop_first(), b.drop_first())
    }
}

/// `a` is taken from the queue before `b`.
pub open spec fn outranks(a: QueueItem, b: QueueItem) -> bool {
    lex_greater(priority(a), priority(b))
}

/// An item that does not come before another arrives no earlier.
proof fn lemma_not_outranks(a: QueueItem, b: QueueItem)
    requires
        !outranks(a, b),
    ensures
        a.arrival_time@ >= b.arrival_time@,
{
    let pa = priority(a);
    let pb = priority(b);
    assert(pa[0] == time_max() - a.arrival_time@);
    assert(pb[0] == time_max() - b.arrival_time@);
    assert(pa.len() > 0 && pb.len() > 0);
}

/// Lexicographic order is transitive.
proof fn lemma_lex_transitive(a: Seq<int>, b: Seq<int>, c: Seq<int>)
    requires
        lex_greater(a, b),
        lex_greater(b, c),
    ensures
        lex_greater(a, c),
    decreases a.len(),
{
    if a.len() > 0 && b.len() > 0 && c.len() > 0 && a[0] == b[0] && b[0] == c[0] {
        lemma_lex_transitive(a.drop_first(), b.drop_first(), c.drop_first());
    }
}

/// Lexicographic order is irreflexive.
proof fn lemma_lex_irreflexive(a: Seq<int>)
    ensures
        !lex_greater(a, a),
    decreases a.len(),
{
    if a.len() > 0 {
        lemma_lex_irreflexive(a.drop_first());
    }
}

/// The order of queue items is transitive.
pub proof fn lemma_outranks_transitive(a: QueueItem, b: QueueItem, c: QueueItem)
    requires
        outranks(a, b),
        outranks(b, c),
    ensures
        outranks(a, c),
{
    lemma_lex_transitive(priority(a), priority(b), priority(c));
}

/// No queue item is taken before itself.
pub proof fn lemma_outranks_irreflexive(a: QueueItem)
    ensures
        !outranks(a, a),
{
    lemma_lex_irreflexive(priority(a));
}

/// Of two queue items, at most one is taken before the other.
pub proof fn law_outranks_asymmetric(a: QueueItem, b: QueueItem)
    ensures
        outranks(a, b) ==> !outranks(b, a),
{
    if outranks(a, b) && outranks(b, a) {
        lemma_outranks_transitive(a, b, a);
        lemma_outranks_irreflexive(a);
    }
}

/// Of two stops on trips arriving at the same time, the one whose previous arrival is earlier
/// is taken first; then the one departing earlier; then the one departing next earlier.
pub proof fn law_stops_on_trips_tie(a: QueueItem, b: QueueItem)
    requires
        a.arrival_time@ == b.arrival_time@,
        a.variant matches QueueItemVariant::StopOnTrip {
            previous_arrival_time: pa,
            departure_time: da,
            next_departure_time: na,
            ..
        } && b.variant matches QueueItemVariant::StopOnTrip {
            previous_arrival_time: pb,
            departure_time: db,
            next_departure_time: nb,
            ..
        } && (pa@ < pb@ || (pa@ == pb@ && da@ < db@) || (pa@ == pb@ && da@ == db@ && na@ < nb@)),
    ensures
        outranks(a, b),
{
    reveal_with_fuel(lex_greater, 6);
    let x = priority(a);
    let y = priority(b);
    assert(x.drop_first().drop_first() =~= x.subrange(2, x.len() as int));
    assert(y.drop_first().drop_first() =~= y.subrange(2, y.len() as int));
}

/// An item arriving earlier is taken first; of two arriving at the same time, a connection is
/// taken before a stop on a trip.
pub proof fn lemma_outranks_by_arrival(c: QueueItem, q: QueueItem)
    requires
        c.arrival_time@ < q.arrival_time@ || (c.arrival_time@ == q.arrival_time@ && c.variant is Connection
            && q.variant is StopOnTrip),
    ensures
        outranks(c, q),
{
    reveal_with_fuel(lex_greater, 2);
    let pc = priority(c);
    let pq = priority(q);
    if c.arrival_time@ == q.arrival_time@ {
        assert(pc.drop_first()[0] == 1);
        assert(pq.drop_first()[0] == 0);
    }
}

/// The key of a queue item, computed.
fn priority_key(q: &QueueItem) -> (k: Vec<u64>)
    ensures
        k@.len() == priority(*q).len(),
        forall|i: int| 0 <= i < k@.len() ==> k@[i] as int == #[trigger] priority(*q)[i],
{
    let max: u64 = 0xffff_ffff;
    let a: u64 = max - q.arrival_time.seconds_since_midnight() as u64;
    let to: u64 = q.to_stop.stop_id;
    let k = match q.variant {
        QueueItemVariant::StopOnTrip {
            departure_time: d,
            from_stop,
            trip_id,
            route,
            previous_arrival_time: p,
            next_departure_time: n,
        } => {
            let d: u64 = d.seconds_since_midnight() as u64;
            let p: u64 = p.seconds_since_midnight() as u64;
            let n: u64 = n.seconds_since_midnight() as u64;
            let rp: u64 = max - p;
            let rd: u64 = max - d;
            let rn: u64 = max - n;
            let rid: u64 = route.route_id as u64;
            vec![a, 0, rp, rd, rn, d, from_stop.stop_id, trip_id, rid, p, n, to]
        },
        QueueItemVariant::Connection { departure_time: d, from_stop, trip_id, route } => {
            let d: u64 = d.seconds_since_midnight() as u64;
            let rid: u64 = route.route_id as u64;
            vec![a, 1, 0, 0, 0, d, from_stop.stop_id, trip_id, rid, 0, 0, to]
        },
        QueueItemVariant::Transfer { departure_time: d, from_stop } => {
            let d: u64 = d.seconds_since_midnight() as u64;
            vec![a, 2, 0, 0, 0, d, from_stop.stop_id, 0, 0, 0, 0, to]
        },
        QueueItemVariant::OriginStation => vec![a, 3, 0, 0, 0, 0, 0, 0, 0, 0, 0, to],
    };
    k
}

/// Whether `a` is taken from the queue before `b`.
fn outranks_exec(a: &QueueItem, b: &QueueItem) -> (r: bool)
    ensures
        r == outranks(*a, *b),
{
    let ka = priority_key(a);
    let kb = priority_key(b);
    let ghost pa = priority(*a);
    let ghost pb = priority(*b);
    let mut i: usize = 0;
    assert(pa.skip(0) =~= pa);
    assert(pb.skip(0) =~= pb);
    while i < ka.len()
        invariant
            i <= ka@.len(),
            pa == priority(*a),
            pb == priority(*b),
            ka@.len() == pa.len(),
            kb@.len() == pb.len(),
            pa.len() == pb.len(),
            forall|j: int| 0 <= j < ka@.len() ==> ka@[j] as int == #[trigger] pa[j],
            forall|j: int| 0 <= j < kb@.len() ==> kb@[j] as int == #[trigger] pb[j],
            lex_greater(pa, pb) == lex_greater(pa.skip(i as int), pb.skip(i as int)),
        decreases ka@.len() - i,
    {
        assert(pa.skip(i as int)[0] == pa[i as int]);
        assert(pb.skip(i as int)[0] == pb[i as int]);
        if ka[i] != kb[i] {
            assert(lex_greater(pa.skip(i as int), pb.skip(i as int)) == (pa[i as int] > pb[i as int]));
            return ka[i] > kb[i];
        }
        assert(pa.skip(i as int).drop_first() =~= pa.skip(i + 1));
        assert(pb.skip(i as int).drop_first() =~= pb.skip(i + 1));
        i = i + 1;
    }
    false
}


/// The trip that a variant rides or connects to.
pub open spec fn trip_of(v: QueueItemVariant) -> Option<TripId> {
    match v {
        QueueItemVariant::StopOnTrip { trip_id, .. } => Some(trip_id),
        QueueItemVariant::Connection { trip_id, .. } => Some(trip_id),
        _ => None,
    }
}

/// The stop that a variant comes from.
pub open spec fn from_stop_of(v: QueueItemVariant) -> Option<Stop> {
    match v {
        QueueItemVariant::StopOnTrip { from_stop, .. } => Some(*from_stop),
        QueueItemVariant::Connection { from_stop, .. } => Some(*from_stop),
        QueueItemVariant::Transfer { from_stop, .. } => Some(*from_stop),
        QueueItemVariant::OriginStation => None,
    }
}

/// `s` is the stop of `data` with its id.
pub open spec fn is_data_stop(data: GTFSData, s: Stop) -> bool {
    data.stop_map().contains_key(s.stop_id) && data.stop_map()[s.stop_id] == s
}

/// Along each trip, no stop is left before it is arrived at, and none is arrived at before an
/// earlier stop is left.
pub open spec fn trips_ordered(data: GTFSData) -> bool {
    &&& forall|t: TripId, i: int, j: int|
        #![trigger data.trip_map()[t].stop_times@[i], data.trip_map()[t].stop_times@[j]]
        data.trip_map().contains_key(t) && 0 <= i < j < data.trip_map()[t].stop_times@.len() ==> data.trip_map()[t].stop_times@[i].departure_time@
            <= data.trip_map()[t].stop_times@[j].arrival_time@
    &&& forall|t: TripId, i: int|
        #![trigger data.trip_map()[t].stop_times@[i]]
        data.trip_map().contains_key(t) && 0 <= i < data.trip_map()[t].stop_times@.len() ==> data.trip_map()[t].stop_times@[i].arrival_time@
            <= data.trip_map()[t].stop_times@[i].departure_time@
}

/// The time a variant leaves from its previous stop, if it has one.
pub open spec fn departure_of(v: QueueItemVariant) -> Option<Time> {
    match v {
        QueueItemVariant::StopOnTrip { departure_time, .. } => Some(departure_time),
        QueueItemVariant::Connection { departure_time, .. } => Some(departure_time),
        QueueItemVariant::Transfer { departure_time, .. } => Some(departure_time),
        QueueItemVariant::OriginStation => None,
    }
}

/// The queued items arrive no earlier than the start of the period; a stop on a trip leaves
/// its previous stop in the period, no later than it arrives.
pub open spec fn queue_in_period(q: Seq<QueueItem>, period: (nat, nat)) -> bool {
    forall|i: int| 0 <= i < q.len() ==> {
        &&& period.0 <= (#[trigger] q[i]).arrival_time@
        &&& q[i].variant is StopOnTrip ==> period.0 <= departure_of(q[i].variant)->0@ <= q[i].arrival_time@
    }
}

/// The late arrivals kept arrive at stops of the data; a stop on a trip comes from one.
pub open spec fn slow_stops_ok(slow: Map<TripId, Seq<QueueItem>>, data: GTFSData) -> bool {
    forall|t: TripId, k: int|
        #![trigger slow[t][k]]
        slow.contains_key(t) && 0 <= k < slow[t].len() ==> {
            &&& is_data_stop(data, *slow[t][k].to_stop)
            &&& slow[t][k].variant is StopOnTrip ==> is_data_stop(data, from_stop_of(slow[t][k].variant)->0)
        }
}

/// The late arrivals kept arrive within the period; a stop on a trip leaves its previous stop
/// in the period, no later than it arrives.
pub open spec fn slow_in_period(slow: Map<TripId, Seq<QueueItem>>, period: (nat, nat)) -> bool {
    forall|t: TripId, k: int|
        #![trigger slow[t][k]]
        slow.contains_key(t) && 0 <= k < slow[t].len() ==> {
            &&& period.0 <= slow[t][k].arrival_time@ < period.1
            &&& slow[t][k].variant is StopOnTrip ==> period.0 <= departure_of(slow[t][k].variant)->0@
                <= slow[t][k].arrival_time@
        }
}

/// Every transfer time of the stops of `data` is at least zero and fits after `end`.
pub open spec fn transfers_fit(data: GTFSData, end: nat) -> bool {
    forall|id: StopId, k: int|
        #![trigger data.stop_map()[id].transfers@[k]]
        data.stop_map().contains_key(id) && 0 <= k < data.stop_map()[id].transfers@.len() ==> match data.stop_map()[id].transfers@[k].min_transfer_time {
            Some(d) => 0 <= d@ && end + d@ <= time_max(),
            None => true,
        }
}

/// The data can be searched over a period ending at `end`.
pub open spec fn searchable(data: GTFSData, end: nat) -> bool {
    &&& data.wf()
    &&& trips_ordered(data)
    &&& transfers_fit(data, end)
}

/// A queued item is consistent with the state of the search: it arrives at a stop of the data,
/// no earlier than any arrival found; a connection waits at a stop reached already, for a trip
/// of which no late arrivals are kept; and its trip has been queued.
pub open spec fn item_ok(
    x: QueueItem,
    data: GTFSData,
    arrivals: Map<StopId, Time>,
    enqueued: Set<TripId>,
    slow: Map<TripId, Seq<QueueItem>>,
) -> bool {
    &&& is_data_stop(data, *x.to_stop)
    &&& forall|s: StopId| #[trigger] arrivals.contains_key(s) ==> arrivals[s]@ <= x.arrival_time@
    &&& x.variant is Connection ==> arrivals.contains_key(x.to_stop.stop_id) && !slow.contains_key(
        trip_of(x.variant)->0,
    )
    &&& trip_of(x.variant) is Some ==> enqueued.contains(trip_of(x.variant)->0)
    &&& x.variant is StopOnTrip ==> is_data_stop(data, from_stop_of(x.variant)->0)
}

/// Every queued item is consistent with the state of the search.
pub open spec fn queue_items_ok(
    q: Seq<QueueItem>,
    data: GTFSData,
    arrivals: Map<StopId, Time>,
    enqueued: Set<TripId>,
    slow: Map<TripId, Seq<QueueItem>>,
) -> bool {
    forall|i: int| 0 <= i < q.len() ==> item_ok(#[trigger] q[i], data, arrivals, enqueued, slow)
}

/// No two queued connections are to the same trip, and a queued connection is taken before
/// the stops of its trip.
pub open spec fn queue_pairs_ok(q: Seq<QueueItem>) -> bool {
    &&& forall|i: int, j: int|
        0 <= i < q.len() && 0 <= j < q.len() && i != j && (#[trigger] q[i]).variant is Connection
            && (#[trigger] q[j]).variant is Connection ==> trip_of(q[i].variant) != trip_of(q[j].variant)
    &&& forall|i: int, j: int|
        0 <= i < q.len() && 0 <= j < q.len() && (#[trigger] q[i]).variant is Connection
            && (#[trigger] q[j]).variant is StopOnTrip && trip_of(q[i].variant) == trip_of(q[j].variant) ==> outranks(
            q[i],
            q[j],
        )
}

/// The late arrivals are kept only for queued trips, each under its own trip, and all but the
/// first of each are stops on the trip.
pub open spec fn slow_ok(slow: Map<TripId, Seq<QueueItem>>, enqueued: Set<TripId>) -> bool {
    &&& forall|t: TripId| #[trigger] slow.contains_key(t) ==> enqueued.contains(t)
    &&& forall|t: TripId, k: int|
        #![trigger slow[t][k]]
        slow.contains_key(t) && 0 <= k < slow[t].len() ==> trip_of(slow[t][k].variant) == Some(t) && (k > 0
            ==> slow[t][k].variant is StopOnTrip)
}

/// Items without a trip can join the queue without upsetting the pairs in it.
proof fn lemma_pairs_push_tripless(q: Seq<QueueItem>, x: QueueItem)
    requires
        queue_pairs_ok(q),
        trip_of(x.variant) is None,
    ensures
        queue_pairs_ok(q.push(x)),
{
    let n = q.push(x);
    assert forall|i: int, j: int|
        0 <= i < n.len() && 0 <= j < n.len() && i != j && (#[trigger] n[i]).variant is Connection
            && (#[trigger] n[j]).variant is Connection implies trip_of(n[i].variant) != trip_of(n[j].variant) by {
        assert(i < q.len() && j < q.len());
        assert(n[i] == q[i] && n[j] == q[j]);
    }
    assert forall|i: int, j: int|
        0 <= i < n.len() && 0 <= j < n.len() && (#[trigger] n[i]).variant is Connection
            && (#[trigger] n[j]).variant is StopOnTrip && trip_of(n[i].variant) == trip_of(n[j].variant) implies outranks(
        n[i],
        n[j],
    ) by {
        assert(i < q.len() && j < q.len());
        assert(n[i] == q[i] && n[j] == q[j]);
    }
}

/// The time a transfer takes: its minimum transfer time, or nothing.
pub open spec fn transfer_duration(tr: Transfer) -> int {
    match tr.min_transfer_time {
        Some(d) => d@,
        None => 0,
    }
}

/// The targets `(stop, time taken)` of the transfers from a stop: those to stops of the data
/// not reached yet, in order.
pub open spec fn stop_transfer_targets(transfers: Seq<Transfer>, arrivals: Map<StopId, Time>, data: GTFSData) -> Seq<(StopId, int)>
    decreases transfers.len(),
{
    if transfers.len() == 0 {
        Seq::empty()
    } else {
        let tr = transfers.last();
        stop_transfer_targets(transfers.drop_last(), arrivals, data) + if !arrivals.contains_key(tr.to_stop_id)
            && data.stop_map().contains_key(tr.to_stop_id) {
            seq![(tr.to_stop_id, transfer_duration(tr))]
        } else {
            Seq::empty()
        }
    }
}

/// The ids among `ids` of stops of the data, in order.
pub open spec fn present_ids(ids: Seq<StopId>, data: GTFSData) -> Seq<StopId>
    decreases ids.len(),
{
    if ids.len() == 0 {
        Seq::empty()
    } else {
        present_ids(ids.drop_last(), data) + if data.stop_map().contains_key(ids.last()) {
            seq![ids.last()]
        } else {
            Seq::empty()
        }
    }
}

/// The stop `id` of the data followed by its children, or nothing if the data lacks it.
pub open spec fn with_children_ids(id: StopId, data: GTFSData) -> Seq<StopId> {
    if data.stop_map().contains_key(id) {
        seq![id] + data.stop_map()[id].spec_children()
    } else {
        Seq::empty()
    }
}

/// The targets `(stop, time taken)` of the transfers from a station: for each transfer to a
/// stop not reached yet, that stop and its children, those of them in the data.
pub open spec fn station_transfer_targets(transfers: Seq<Transfer>, arrivals: Map<StopId, Time>, data: GTFSData) -> Seq<(StopId, int)>
    decreases transfers.len(),
{
    if transfers.len() == 0 {
        Seq::empty()
    } else {
        let tr = transfers.last();
        station_transfer_targets(transfers.drop_last(), arrivals, data) + if !arrivals.contains_key(tr.to_stop_id) {
            present_ids(with_children_ids(tr.to_stop_id, data), data).map_values(|id: StopId| (id, transfer_duration(tr)))
        } else {
            Seq::empty()
        }
    }
}

/// `x` is the transfer from `from` leaving at `t` to the target.
pub open spec fn is_transfer_to(x: QueueItem, target: (StopId, int), from: Stop, t: Time, data: GTFSData) -> bool {
    &&& *x.to_stop == data.stop_map()[target.0]
    &&& x.arrival_time@ == t@ + target.1
    &&& x.variant matches QueueItemVariant::Transfer { departure_time, from_stop } && departure_time == t && *from_stop == from
}

/// `added` are the transfers from `from` leaving at `t` to the targets, in order.
pub open spec fn transfers_to(added: Seq<QueueItem>, targets: Seq<(StopId, int)>, from: Stop, t: Time, data: GTFSData) -> bool {
    &&& added.len() == targets.len()
    &&& forall|k: int| 0 <= k < added.len() ==> is_transfer_to(#[trigger] added[k], targets[k], from, t, data)
}

/// The item comes from a stop that has been reached.
pub open spec fn has_arrival(x: QueueItem, arrivals: Map<StopId, Time>) -> bool {
    from_stop_of(x.variant) is Some && arrivals.contains_key(from_stop_of(x.variant)->0.stop_id)
}

/// The earliest arrival at the stop the item comes from.
pub open spec fn from_arrival(x: QueueItem, arrivals: Map<StopId, Time>) -> Time {
    arrivals[from_stop_of(x.variant)->0.stop_id]
}

/// `b` is where to board a trip among its late arrivals `items`: the first of those from a
/// stop reached earliest.
pub open spec fn is_boarding(items: Seq<QueueItem>, arrivals: Map<StopId, Time>, b: int) -> bool {
    &&& 0 <= b < items.len()
    &&& has_arrival(items[b], arrivals)
    &&& forall|j: int| 0 <= j < items.len() && #[trigger] has_arrival(items[j], arrivals) ==> from_arrival(items[b], arrivals)@
        <= from_arrival(items[j], arrivals)@
    &&& forall|j: int| 0 <= j < b && #[trigger] has_arrival(items[j], arrivals) ==> from_arrival(items[b], arrivals)@
        < from_arrival(items[j], arrivals)@
}

/// The late arrivals of a trip from where to board it: when the stop reached earliest among
/// those they come from is not the first, a new connection there followed by the arrivals from
/// it on; otherwise all of them.
pub open spec fn slow_from_boarding<'r>(items: Seq<QueueItem<'r>>, arrivals: Map<StopId, Time>) -> Seq<QueueItem<'r>> {
    if exists|b: int| is_boarding(items, arrivals, b) && b > 0 {
        let b = choose|b: int| is_boarding(items, arrivals, b) && b > 0;
        seq![boarding_connection(items[b], from_arrival(items[b], arrivals))] + items.skip(b)
    } else {
        items
    }
}

/// Late arrivals that all belong to trips stay so when taken from their boarding.
proof fn lemma_boarding_keeps_trips<'r>(items: Seq<QueueItem<'r>>, arrivals: Map<StopId, Time>)
    requires
        forall|k: int| 0 <= k < items.len() ==> (trip_of(#[trigger] items[k].variant)) is Some,
    ensures
        forall|k: int|
            0 <= k < slow_from_boarding(items, arrivals).len() ==> (trip_of(
                #[trigger] slow_from_boarding(items, arrivals)[k].variant,
            )) is Some,
{
    if exists|b: int| is_boarding(items, arrivals, b) && b > 0 {
        let b = choose|b: int| is_boarding(items, arrivals, b) && b > 0;
        let r = slow_from_boarding(items, arrivals);
        assert(trip_of(items[b].variant) is Some);
        assert forall|k: int| 0 <= k < r.len() implies (trip_of(#[trigger] r[k].variant)) is Some by {
            if k > 0 {
                assert(r[k] == items[b + k - 1]);
            }
        }
    }
}

/// A late item of a trip added to the trip's late arrivals.
pub open spec fn with_slow<'r>(slow: Map<TripId, Seq<QueueItem<'r>>>, trip_id: TripId, item: QueueItem<'r>) -> Map<
    TripId,
    Seq<QueueItem<'r>>,
> {
    slow.insert(trip_id, if slow.contains_key(trip_id) { slow[trip_id].push(item) } else { seq![item] })
}

/// The connection to board the trip of the stop on a trip `x` at the stop it comes from,
/// waiting there from `first_arrival`.
pub open spec fn boarding_connection<'r>(x: QueueItem<'r>, first_arrival: Time) -> QueueItem<'r> {
    match x.variant {
        QueueItemVariant::StopOnTrip { from_stop, departure_time, trip_id, route, .. } => QueueItem {
            arrival_time: departure_time,
            to_stop: from_stop,
            variant: QueueItemVariant::Connection { from_stop, departure_time: first_arrival, trip_id, route },
        },
        _ => x,
    }
}

/// Reaching a stop of `dom` not reached before leaves one fewer to reach.
proof fn lemma_reach_one(dom: Set<StopId>, reached: Set<StopId>, s: StopId)
    requires
        dom.finite(),
        dom.contains(s),
        !reached.contains(s),
    ensures
        dom.difference(reached.insert(s)).len() + 1 == dom.difference(reached).len(),
{
    assert(dom.difference(reached.insert(s)) =~= dom.difference(reached).remove(s));
    vstd::set::axiom_set_remove_len(dom.difference(reached), s);
}

/// Removing an item from a queue keeps its items and pairs consistent and within the period.
proof fn lemma_queue_remove(
    q: Seq<QueueItem>,
    b: int,
    data: GTFSData,
    arrivals: Map<StopId, Time>,
    enqueued: Set<TripId>,
    slow: Map<TripId, Seq<QueueItem>>,
    period: (nat, nat),
)
    requires
        0 <= b < q.len(),
        queue_items_ok(q, data, arrivals, enqueued, slow),
        queue_pairs_ok(q),
        queue_in_period(q, period),
    ensures
        queue_items_ok(q.remove(b), data, arrivals, enqueued, slow),
        queue_pairs_ok(q.remove(b)),
        queue_in_period(q.remove(b), period),
        forall|i: int| 0 <= i < q.remove(b).len() ==> #[trigger] q.remove(b)[i] == q[if i < b { i } else { i + 1 }],
{
    let r = q.remove(b);
    assert forall|i: int| 0 <= i < r.len() implies #[trigger] r[i] == q[if i < b { i } else { i + 1 }] by {}
    assert forall|i: int| 0 <= i < r.len() implies item_ok(#[trigger] r[i], data, arrivals, enqueued, slow) by {
        assert(r[i] == q[if i < b { i } else { i + 1 }]);
    }
    assert forall|i: int| 0 <= i < r.len() implies {
        &&& period.0 <= (#[trigger] r[i]).arrival_time@
        &&& r[i].variant is StopOnTrip ==> period.0 <= departure_of(r[i].variant)->0@ <= r[i].arrival_time@
    } by {
        assert(r[i] == q[if i < b { i } else { i + 1 }]);
    }
    assert forall|i: int, j: int|
        0 <= i < r.len() && 0 <= j < r.len() && i != j && (#[trigger] r[i]).variant is Connection
            && (#[trigger] r[j]).variant is Connection implies trip_of(r[i].variant) != trip_of(r[j].variant) by {
        let qi = if i < b { i } else { i + 1 };
        let qj = if j < b { j } else { j + 1 };
        assert(r[i] == q[qi] && r[j] == q[qj]);
    }
    assert forall|i: int, j: int|
        0 <= i < r.len() && 0 <= j < r.len() && (#[trigger] r[i]).variant is Connection
            && (#[trigger] r[j]).variant is StopOnTrip && trip_of(r[i].variant) == trip_of(r[j].variant) implies outranks(
        r[i],
        r[j],
    ) by {
        let qi = if i < b { i } else { i + 1 };
        let qj = if j < b { j } else { j + 1 };
        assert(r[i] == q[qi] && r[j] == q[qj]);
    }
}

/// `(a1, a2)` comes no later than `(b1, b2)` in lexicographic order.
pub open spec fn pair_le(a1: nat, a2: nat, b1: nat, b2: nat) -> bool {
    a1 < b1 || (a1 == b1 && a2 <= b2)
}

/// The station of the stop handed out by a station item.
pub open spec fn station_item_id(x: Item) -> Option<StopId> {
    match x {
        Item::Station { stop, .. } => Some(stop.spec_station_id()),
        _ => None,
    }
}

/// The stations of the station items waiting to be handed out have been recorded as handed
/// out, and no two of them are the same.
pub open spec fn pending_ok(pending: Seq<Item>, emitted: Set<StopId>) -> bool {
    &&& forall|k: int| 0 <= k < pending.len() && (#[trigger] station_item_id(pending[k])) is Some ==> emitted.contains(
        station_item_id(pending[k])->0,
    )
    &&& forall|i: int, j: int|
        0 <= i < j < pending.len() && (#[trigger] station_item_id(pending[i])) is Some ==> station_item_id(pending[i])
            != #[trigger] station_item_id(pending[j])
}

/// Keeps `stop`, a stop of `data`, in the data being filtered from it.
fn keep_stop_in<'r>(data: &'r GTFSData, builder: &mut FilterBuilder<'r>, stop: &'r Stop)
    requires
        old(builder).wf(),
        old(builder).existing() == data,
        data.wf(),
        is_data_stop(*data, *stop),
        forall|s: StopId| #[trigger] old(builder).new_data().stop_map().contains_key(s) ==> data.stop_map().contains_key(s)
            && old(builder).new_data().stop_map()[s].same_as(&data.stop_map()[s]),
    ensures
        final(builder).wf(),
        final(builder).existing() == data,
        final(builder).new_data().day_services() == old(builder).new_data().day_services(),
        final(builder).new_data().start_date() == old(builder).new_data().start_date(),
        final(builder).new_data().trip_map() == old(builder).new_data().trip_map(),
        final(builder).new_data().stop_map().dom() == old(builder).new_data().stop_map().dom().insert(stop.stop_id),
        forall|s: StopId| #[trigger] old(builder).new_data().stop_map().contains_key(s)
            ==> final(builder).new_data().stop_map()[s] == old(builder).new_data().stop_map()[s],
        forall|s: StopId| #[trigger] final(builder).new_data().stop_map().contains_key(s) ==> data.stop_map().contains_key(s)
            && final(builder).new_data().stop_map()[s].same_as(&data.stop_map()[s]),
{
    proof {
        assert(stop_refs_valid(data.stop_map()[stop.stop_id], data.trip_map()));
        assert(stop_times_match(data.stop_map()[stop.stop_id], data.trip_map()));
    }
    builder.keep_stop(stop);
}

/// The search for the fastest journeys from origin stations within a period.
pub struct Plotter<'r> {
    period: Period,
    route_types: Vec<RouteType>,
    data: &'r GTFSData,
    services: HashSet<ServiceId>,
    queue: Vec<QueueItem<'r>>,
    catch_up: VecDeque<Item<'r>>,
    enqueued_trips: HashSet<TripId>,
    slow_trips: HashMap<TripId, Vec<QueueItem<'r>>>,
    stops: HashMap<StopId, Time>,
    emitted_stations: HashSet<StopId>,
}

impl<'r> QueueItemVariant<'r> {
    /// Whether this is a stop on a trip.
    pub fn is_stop_on_trip(&self) -> (b: bool)
        ensures
            b == (*self is StopOnTrip),
    {
        match self {
            QueueItemVariant::StopOnTrip { .. } => true,
            _ => false,
        }
    }

    /// The stop this comes from, if any.
    pub fn get_from_stop(&self) -> (s: Option<&'r Stop>)
        ensures
            match s {
                Some(st) => from_stop_of(*self) == Some(*st),
                None => from_stop_of(*self) is None,
            },
            s is Some <==> !(*self is OriginStation),
    {
        match self {
            QueueItemVariant::Connection { from_stop, .. } => Some(*from_stop),
            QueueItemVariant::StopOnTrip { from_stop, .. } => Some(*from_stop),
            QueueItemVariant::Transfer { from_stop, .. } => Some(*from_stop),
            QueueItemVariant::OriginStation => None,
        }
    }

    /// The trip this rides or connects to, if any.
    pub fn get_trip_id(&self) -> (t: Option<TripId>)
        ensures
            t == trip_of(*self),
    {
        match self {
            QueueItemVariant::Connection { trip_id, .. } => Some(*trip_id),
            QueueItemVariant::StopOnTrip { trip_id, .. } => Some(*trip_id),
            QueueItemVariant::Transfer { .. } => None,
            QueueItemVariant::OriginStation => None,
        }
    }
}

impl<'r> Plotter<'r> {
    /// The period searched, in seconds since midnight.
    pub closed spec fn period_of(&self) -> (nat, nat) {
        self.period@
    }

    /// The kinds of routes searched.
    pub closed spec fn route_type_seq(&self) -> Seq<RouteType> {
        self.route_types@
    }

    /// The timetable data searched.
    pub closed spec fn data_of(&self) -> GTFSData {
        *self.data
    }

    /// The services searched.
    pub closed spec fn service_set(&self) -> Set<ServiceId> {
        self.services@
    }

    /// The candidate arrivals waiting to be taken.
    pub closed spec fn queued(&self) -> Seq<QueueItem<'r>> {
        self.queue@
    }

    /// The items found already and waiting to be handed out.
    pub closed spec fn pending(&self) -> Seq<Item<'r>> {
        self.catch_up@
    }

    /// The trips whose stops have been queued.
    pub closed spec fn enqueued(&self) -> Set<TripId> {
        self.enqueued_trips@
    }

    /// The late arrivals kept for each trip.
    pub closed spec fn slow(&self) -> Map<TripId, Seq<QueueItem<'r>>> {
        Map::new(|t: TripId| self.slow_trips@.contains_key(t), |t: TripId| self.slow_trips@[t]@)
    }

    /// The earliest arrival found at each stop reached.
    pub closed spec fn arrivals(&self) -> Map<StopId, Time> {
        self.stops@
    }

    /// The stations handed out.
    pub closed spec fn emitted(&self) -> Set<StopId> {
        self.emitted_stations@
    }

    /// The number of stops of the data not reached yet.
    pub closed spec fn stops_to_reach(&self) -> nat {
        self.data.stop_map().dom().difference(self.stops@.dom()).len()
    }

    /// The state of the search is consistent.
    pub closed spec fn wf(&self) -> bool {
        &&& searchable(*self.data, self.period@.1)
        &&& self.route_types@.no_duplicates()
        &&& queue_items_ok(self.queue@, *self.data, self.stops@, self.enqueued_trips@, self.slow())
        &&& queue_pairs_ok(self.queue@)
        &&& slow_ok(self.slow(), self.enqueued_trips@)
        &&& queue_in_period(self.queue@, self.period@)
        &&& slow_in_period(self.slow(), self.period@)
        &&& pending_ok(self.catch_up@, self.emitted_stations@)
        &&& slow_stops_ok(self.slow(), *self.data)
        &&& forall|t: TripId| #[trigger] self.enqueued_trips@.contains(t) ==> self.data.trip_map().contains_key(t)
        &&& forall|i: int| 0 <= i < self.queue@.len() ==> route_ok(#[trigger] self.queue@[i], self.route_types@)
        &&& forall|t: TripId, k: int|
            self.slow().contains_key(t) && 0 <= k < self.slow()[t].len() ==> route_ok(
                #[trigger] self.slow()[t][k],
                self.route_types@,
            )
        &&& forall|k: int| 0 <= k < self.catch_up@.len() ==> item_route_ok(#[trigger] self.catch_up@[k], self.route_types@)
        &&& forall|k: int| 0 <= k < self.catch_up@.len() ==> item_in_data(#[trigger] self.catch_up@[k], *self.data)
    }

    /// A search over `period` of the timetable `data` for journeys on `day`.
    pub fn new(day: Day, period: Period, data: &'r GTFSData) -> (p: Plotter<'r>)
        requires
            searchable(*data, period@.1),
        ensures
            p.wf(),
            p.period_of() == period@,
            p.data_of() == *data,
            p.service_set() == services_on(data.day_services(), day),
            p.route_type_seq() == Seq::<RouteType>::empty(),
            p.queued() == Seq::<QueueItem<'r>>::empty(),
            p.pending() == Seq::<Item<'r>>::empty(),
            p.enqueued() == Set::<TripId>::empty(),
            p.slow() == Map::<TripId, Seq<QueueItem<'r>>>::empty(),
            p.arrivals() == Map::<StopId, Time>::empty(),
            p.emitted() == Set::<StopId>::empty(),
    {
        let p = Plotter {
            period,
            services: data.services_of_day(day),
            queue: Vec::new(),
            catch_up: VecDeque::new(),
            enqueued_trips: HashSet::new(),
            slow_trips: HashMap::new(),
            stops: HashMap::new(),
            emitted_stations: HashSet::new(),
            data,
            route_types: Vec::new(),
        };
        assert(p.slow() =~= Map::<TripId, Seq<QueueItem<'r>>>::empty());
        p
    }

    /// Adds an origin station, a stop of the data, to start the search from at the start of
    /// the period.
    pub fn add_origin_station(&mut self, origin: &'r Stop)
        requires
            old(self).wf(),
            is_data_stop(old(self).data_of(), *origin),
            forall|s: StopId| #[trigger] old(self).arrivals().contains_key(s) ==> old(self).arrivals()[s]@ <= old(self).period_of().0,
        ensures
            final(self).wf(),
            final(self).queued().drop_last() == old(self).queued(),
            final(self).queued().len() == old(self).queued().len() + 1,
            final(self).queued().last().arrival_time@ == old(self).period_of().0,
            final(self).queued().last().to_stop == origin,
            final(self).queued().last().variant is OriginStation,
            final(self).same_but_queue(*old(self)),
            final(self).arrivals() == old(self).arrivals(),
            final(self).emitted() == old(self).emitted(),
            final(self).pending() == old(self).pending(),
            final(self).enqueued() == old(self).enqueued(),
            final(self).slow() == old(self).slow(),
            final(self).data_of() == old(self).data_of(),
            final(self).period_of() == old(self).period_of(),
            final(self).service_set() == old(self).service_set(),
            final(self).route_type_seq() == old(self).route_type_seq(),
    {
        let start = self.period.start();
        let item = QueueItem { arrival_time: start, to_stop: origin, variant: QueueItemVariant::OriginStation };
        self.queue.push(item);
        proof {
            let q = self.queue@;
            lemma_pairs_push_tripless(old(self).queue@, item);
            assert forall|i: int| 0 <= i < q.len() implies item_ok(
                #[trigger] q[i],
                *self.data,
                self.stops@,
                self.enqueued_trips@,
                self.slow(),
            ) by {
                if i < q.len() - 1 {
                    assert(q[i] == old(self).queue@[i]);
                } else {
                    assert(old(self).arrivals() == self.stops@);
                }
            }
        }
    }

    /// The two searches differ at most in their queues.
    pub closed spec fn same_but_queue(&self, other: Plotter<'r>) -> bool {
        &&& self.period == other.period
        &&& self.route_types@ == other.route_types@
        &&& self.data == other.data
        &&& self.services@ == other.services@
        &&& self.catch_up@ == other.catch_up@
        &&& self.enqueued_trips@ == other.enqueued_trips@
        &&& self.slow() == other.slow()
        &&& self.stops@ == other.stops@
        &&& self.emitted_stations@ == other.emitted_stations@
    }

    /// Adds a kind of route to be searched.
    pub fn add_route_type(&mut self, route_type: RouteType)
        requires
            old(self).wf(),
        ensures
            final(self).wf(),
            final(self).route_type_seq().to_set() == old(self).route_type_seq().to_set().insert(route_type),
            final(self).queued() == old(self).queued(),
            final(self).pending() == old(self).pending(),
            final(self).arrivals() == old(self).arrivals(),
            final(self).emitted() == old(self).emitted(),
            final(self).enqueued() == old(self).enqueued(),
            final(self).slow() == old(self).slow(),
            final(self).period_of() == old(self).period_of(),
            final(self).data_of() == old(self).data_of(),
            final(self).service_set() == old(self).service_set(),
    {
        if !self.has_route_type(route_type) {
            self.route_types.push(route_type);
            proof {
                let l = old(self).route_types@;
                assert forall|i: int, j: int| 0 <= i < j < l.len() + 1 implies self.route_types@[i]
                    != self.route_types@[j] by {
                    if j == l.len() {
                        assert(l[i] == self.route_types@[i]);
                    }
                }
                l.lemma_push_to_set_commute(route_type);
                assert forall|rt: RouteType| l.contains(rt) implies self.route_types@.contains(rt) by {
                    let k = choose|k: int| 0 <= k < l.len() && l[k] == rt;
                    assert(self.route_types@[k] == l[k]);
                }
            }
        } else {
            proof {
                let l = old(self).route_types@;
                assert(l.to_set().insert(route_type) =~= l.to_set());
            }
        }
    }

    /// Whether routes of the kind are searched.
    fn has_route_type(&self, route_type: RouteType) -> (b: bool)
        ensures
            b == self.route_types@.contains(route_type),
    {
        let mut i: usize = 0;
        while i < self.route_types.len()
            invariant
                i <= self.route_types@.len(),
                forall|j: int| 0 <= j < i ==> self.route_types@[j] != route_type,
            decreases self.route_types@.len() - i,
        {
            if self.route_types[i] == route_type {
                return true;
            }
            i = i + 1;
        }
        false
    }

    /// The earliest arrival found at the stop, if it has been reached.
    fn earliest_arrival_at(&self, stop_id: StopId) -> (t: Option<Time>)
        ensures
            t == (if self.stops@.contains_key(stop_id) {
                Some(self.stops@[stop_id])
            } else {
                None
            }),
    {
        match self.stops.get(&stop_id) {
            Some(t) => Some(*t),
            None => None,
        }
    }

    /// Records an arrival at the stop if it is the earliest so far; says whether it was.
    fn set_arrival_time(&mut self, stop_id: StopId, new_arrival_time: Time) -> (earlier: bool)
        ensures
            earlier == (!old(self).stops@.contains_key(stop_id) || new_arrival_time@ < old(self).stops@[stop_id]@),
            final(self).stops@ == if earlier {
                old(self).stops@.insert(stop_id, new_arrival_time)
            } else {
                old(self).stops@
            },
            final(self).period == old(self).period,
            final(self).route_types == old(self).route_types,
            final(self).data == old(self).data,
            final(self).services == old(self).services,
            final(self).queue == old(self).queue,
            final(self).catch_up == old(self).catch_up,
            final(self).enqueued_trips == old(self).enqueued_trips,
            final(self).slow_trips == old(self).slow_trips,
            final(self).emitted_stations == old(self).emitted_stations,
    {
        let new_arrival_is_earlier = match self.stops.get(&stop_id) {
            Some(previous) => new_arrival_time.is_before(*previous),
            None => true,
        };
        if new_arrival_is_earlier {
            self.stops.insert(stop_id, new_arrival_time);
            true
        } else {
            false
        }
    }

    /// Queues a transfer to a stop of the data that arrives no earlier than any arrival found.
    fn queue_transfer(&mut self, to_stop: &'r Stop, arrival_time: Time, from_stop: &'r Stop, departure_time: Time)
        requires
            old(self).wf(),
            is_data_stop(*old(self).data, *to_stop),
            old(self).period@.0 <= arrival_time@,
            forall|s: StopId| #[trigger] old(self).stops@.contains_key(s) ==> old(self).stops@[s]@ <= arrival_time@,
        ensures
            final(self).wf(),
            final(self).queue@ == old(self).queue@.push(
                QueueItem { arrival_time, to_stop, variant: QueueItemVariant::Transfer { departure_time, from_stop } },
            ),
            final(self).same_but_queue(*old(self)),
    {
        let item = QueueItem { arrival_time, to_stop, variant: QueueItemVariant::Transfer { departure_time, from_stop } };
        self.queue.push(item);
        proof {
            let q = self.queue@;
            lemma_pairs_push_tripless(old(self).queue@, item);
            assert forall|i: int| 0 <= i < q.len() implies item_ok(
                #[trigger] q[i],
                *self.data,
                self.stops@,
                self.enqueued_trips@,
                self.slow(),
            ) by {
                if i < q.len() - 1 {
                    assert(q[i] == old(self).queue@[i]);
                }
            }
        }
    }

    /// Queues the transfers from `stop`, a stop of the data, leaving at `departure_time`, to
    /// the stops not reached yet.
    fn enqueue_transfers_from_stop(&mut self, stop: &'r Stop, departure_time: Time)
        requires
            old(self).wf(),
            is_data_stop(*old(self).data, *stop),
            old(self).period@.0 <= departure_time@ < old(self).period@.1,
            forall|s: StopId| #[trigger] old(self).stops@.contains_key(s) ==> old(self).stops@[s]@ <= departure_time@,
        ensures
            final(self).wf(),
            old(self).queue@.len() <= final(self).queue@.len(),
            final(self).queue@.take(old(self).queue@.len() as int) == old(self).queue@,
            forall|k: int| old(self).queue@.len() <= k < final(self).queue@.len() ==> (#[trigger] final(self).queue@[k]).variant is Transfer,
            transfers_to(
                final(self).queue@.skip(old(self).queue@.len() as int),
                stop_transfer_targets(stop.transfers@, old(self).stops@, *old(self).data),
                *stop,
                departure_time,
                *old(self).data,
            ),
            final(self).same_but_queue(*old(self)),
    {
        let ghost start = self.queue@.len() as int;
        let ghost data = *self.data;
        let mut k: usize = 0;
        proof {
            assert(self.queue@.skip(start).len() == 0);
        }
        while k < stop.transfers.len()
            invariant
                self.wf(),
                k <= stop.transfers@.len(),
                is_data_stop(data, *stop),
                data == *self.data,
                self.same_but_queue(*old(self)),
                self.period@ == old(self).period@,
                self.period@.0 <= departure_time@ < self.period@.1,
                forall|s: StopId| #[trigger] self.stops@.contains_key(s) ==> self.stops@[s]@ <= departure_time@,
                start == old(self).queue@.len(),
                self.queue@.len() >= start,
                self.queue@.take(start) == old(self).queue@,
                transfers_to(
                    self.queue@.skip(start),
                    stop_transfer_targets(stop.transfers@.take(k as int), self.stops@, data),
                    *stop,
                    departure_time,
                    data,
                ),
            decreases stop.transfers@.len() - k,
        {
            let transfer = &stop.transfers[k];
            let ghost before = self.queue@;
            proof {
                assert(stop.transfers@.take(k + 1).drop_last() =~= stop.transfers@.take(k as int));
                assert(stop.transfers@.take(k + 1).last() == stop.transfers@[k as int]);
            }
            if !self.stops.contains_key(&transfer.to_stop_id) {
                match self.data.get_stop(&transfer.to_stop_id) {
                    Some(to_stop) => {
                        let duration = match transfer.min_transfer_time {
                            Some(d) => d,
                            None => Duration::zero(),
                        };
                        proof {
                            assert(transfers_fit(data, self.period@.1));
                            assert(data.stop_map()[stop.stop_id].transfers@[k as int] == *transfer);
                            let tr = data.stop_map()[stop.stop_id].transfers@[k as int];
                            assert(data.stop_map().contains_key(stop.stop_id));
                            assert(0 <= k < data.stop_map()[stop.stop_id].transfers@.len());
                            assert(match tr.min_transfer_time {
                                Some(d) => 0 <= d@ && self.period@.1 + d@ <= time_max(),
                                None => true,
                            });
                            assert(duration@ == transfer_duration(tr));
                            assert(0 <= duration@ && self.period@.1 + duration@ <= time_max());
                        }
                        let arrival_time = departure_time.add(duration);
                        self.queue_transfer(to_stop, arrival_time, stop, departure_time);
                        proof {
                            let added = self.queue@.skip(start);
                            let prev = before.skip(start);
                            assert(added =~= prev.push(self.queue@.last()));
                            assert forall|j: int| 0 <= j < added.len() implies is_transfer_to(
                                #[trigger] added[j],
                                stop_transfer_targets(stop.transfers@.take(k + 1), self.stops@, data)[j],
                                *stop,
                                departure_time,
                                data,
                            ) by {
                                if j < prev.len() {
                                    assert(added[j] == prev[j]);
                                }
                            }
                        }
                    },
                    None => {},
                }
            }
            k = k + 1;
        }
        proof {
            assert(stop.transfers@.take(k as int) =~= stop.transfers@);
            let q = self.queue@;
            assert forall|j: int| start <= j < q.len() implies (#[trigger] q[j]).variant is Transfer by {
                assert(q.skip(start)[j - start] == q[j]);
            }
        }
    }

    /// Queues the transfers from `from_stop` leaving at `departure_time` and taking `duration`
    /// to those of the stops `ids` that the data has.
    fn queue_transfers_to_ids(&mut self, ids: &Vec<StopId>, from_stop: &'r Stop, departure_time: Time, duration: Duration)
        requires
            old(self).wf(),
            0 <= duration@,
            departure_time@ + duration@ <= time_max(),
            old(self).period@.0 <= departure_time@,
            forall|s: StopId| #[trigger] old(self).stops@.contains_key(s) ==> old(self).stops@[s]@ <= departure_time@,
        ensures
            final(self).wf(),
            old(self).queue@.len() <= final(self).queue@.len(),
            final(self).queue@.take(old(self).queue@.len() as int) == old(self).queue@,
            forall|k: int| old(self).queue@.len() <= k < final(self).queue@.len() ==> (#[trigger] final(self).queue@[k]).variant is Transfer,
            transfers_to(
                final(self).queue@.skip(old(self).queue@.len() as int),
                present_ids(ids@, *old(self).data).map_values(|id: StopId| (id, duration@)),
                *from_stop,
                departure_time,
                *old(self).data,
            ),
            final(self).same_but_queue(*old(self)),
    {
        let ghost start = self.queue@.len() as int;
        let ghost data = *self.data;
        let mut k: usize = 0;
        proof {
            assert(self.queue@.skip(start).len() == 0);
            assert(self.queue@.take(start) =~= self.queue@);
        }
        while k < ids.len()
            invariant
                self.wf(),
                k <= ids@.len(),
                data == *self.data,
                self.same_but_queue(*old(self)),
                0 <= duration@,
                departure_time@ + duration@ <= time_max(),
                self.period@ == old(self).period@,
                self.period@.0 <= departure_time@,
                forall|s: StopId| #[trigger] self.stops@.contains_key(s) ==> self.stops@[s]@ <= departure_time@,
                start == old(self).queue@.len(),
                self.queue@.len() >= start,
                self.queue@.take(start) == old(self).queue@,
                transfers_to(
                    self.queue@.skip(start),
                    present_ids(ids@.take(k as int), data).map_values(|id: StopId| (id, duration@)),
                    *from_stop,
                    departure_time,
                    data,
                ),
            decreases ids@.len() - k,
        {
            let ghost before = self.queue@;
            proof {
                assert(ids@.take(k + 1).drop_last() =~= ids@.take(k as int));
                assert(ids@.take(k + 1).last() == ids@[k as int]);
            }
            match self.data.get_stop(&ids[k]) {
                Some(to_stop) => {
                    let arrival_time = departure_time.add(duration);
                    self.queue_transfer(to_stop, arrival_time, from_stop, departure_time);
                    proof {
                        let added = self.queue@.skip(start);
                        let prev = before.skip(start);
                        let targets = present_ids(ids@.take(k + 1), data).map_values(|id: StopId| (id, duration@));
                        assert(added =~= prev.push(self.queue@.last()));
                        assert forall|j: int| 0 <= j < added.len() implies is_transfer_to(
                            #[trigger] added[j],
                            targets[j],
                            *from_stop,
                            departure_time,
                            data,
                        ) by {
                            if j < prev.len() {
                                assert(added[j] == prev[j]);
                            }
                        }
                        assert(self.queue@.take(start) =~= before.take(start));
                    }
                },
                None => {},
            }
            k = k + 1;
        }
        proof {
            assert(ids@.take(k as int) =~= ids@);
            let q = self.queue@;
            assert forall|j: int| start <= j < q.len() implies (#[trigger] q[j]).variant is Transfer by {
                assert(q.skip(start)[j - start] == q[j]);
            }
        }
    }

    /// The stop `id` of the data, if it has it, followed by its children.
    fn with_children_of(&self, id: StopId) -> (v: Vec<StopId>)
        requires
            self.data.wf(),
        ensures
            v@ == with_children_ids(id, *self.data),
    {
        match self.data.get_stop(&id) {
            Some(stop) => {
                let mut v = Vec::new();
                v.push(stop.stop_id);
                let children = stop.children();
                let mut j: usize = 0;
                while j < children.len()
                    invariant
                        j <= children@.len(),
                        v@ == seq![id] + children@.take(j as int),
                    decreases children@.len() - j,
                {
                    v.push(children[j]);
                    j = j + 1;
                    assert(v@ =~= seq![id] + children@.take(j as int));
                }
                assert(children@.take(j as int) =~= children@);
                v
            },
            None => Vec::new(),
        }
    }

    /// Queues the transfers from `station`, a stop of the data, leaving at `departure_time`:
    /// for each transfer to a stop not reached yet, to that stop and to its children.
    fn enqueue_transfers_from_station(&mut self, station: &'r Stop, departure_time: Time)
        requires
            old(self).wf(),
            is_data_stop(*old(self).data, *station),
            old(self).period@.0 <= departure_time@ < old(self).period@.1,
            forall|s: StopId| #[trigger] old(self).stops@.contains_key(s) ==> old(self).stops@[s]@ <= departure_time@,
        ensures
            final(self).wf(),
            old(self).queue@.len() <= final(self).queue@.len(),
            final(self).queue@.take(old(self).queue@.len() as int) == old(self).queue@,
            forall|k: int| old(self).queue@.len() <= k < final(self).queue@.len() ==> (#[trigger] final(self).queue@[k]).variant is Transfer,
            transfers_to(
                final(self).queue@.skip(old(self).queue@.len() as int),
                station_transfer_targets(station.transfers@, old(self).stops@, *old(self).data),
                *station,
                departure_time,
                *old(self).data,
            ),
            final(self).same_but_queue(*old(self)),
    {
        let ghost start = self.queue@.len() as int;
        let ghost data = *self.data;
        let mut k: usize = 0;
        proof {
            assert(self.queue@.skip(start).len() == 0);
            assert(self.queue@.take(start) =~= self.queue@);
        }
        while k < station.transfers.len()
            invariant
                self.wf(),
                k <= station.transfers@.len(),
                is_data_stop(data, *station),
                data == *self.data,
                self.same_but_queue(*old(self)),
                self.period@ == old(self).period@,
                self.period@.0 <= departure_time@ < self.period@.1,
                forall|s: StopId| #[trigger] self.stops@.contains_key(s) ==> self.stops@[s]@ <= departure_time@,
                start == old(self).queue@.len(),
                self.queue@.len() >= start,
                self.queue@.take(start) == old(self).queue@,
                transfers_to(
                    self.queue@.skip(start),
                    station_transfer_targets(station.transfers@.take(k as int), self.stops@, data),
                    *station,
                    departure_time,
                    data,
                ),
            decreases station.transfers@.len() - k,
        {
            let transfer = &station.transfers[k];
            let ghost before = self.queue@;
            proof {
                assert(station.transfers@.take(k + 1).drop_last() =~= station.transfers@.take(k as int));
                assert(station.transfers@.take(k + 1).last() == station.transfers@[k as int]);
            }
            if !self.stops.contains_key(&transfer.to_stop_id) {
                let duration = match transfer.min_transfer_time {
                    Some(d) => d,
                    None => Duration::zero(),
                };
                proof {
                    let tr = data.stop_map()[station.stop_id].transfers@[k as int];
                    assert(transfers_fit(data, self.period@.1));
                    assert(tr == *transfer);
                    assert(duration@ == transfer_duration(tr));
                }
                let ids = self.with_children_of(transfer.to_stop_id);
                self.queue_transfers_to_ids(&ids, station, departure_time, duration);
                proof {
                    let added = self.queue@.skip(start);
                    let prev = before.skip(start);
                    let more = self.queue@.skip(before.len() as int);
                    let b = before.len() as int;
                    assert forall|j: int| 0 <= j < b implies #[trigger] self.queue@[j] == before[j] by {
                        assert(self.queue@.take(b)[j] == self.queue@[j]);
                    }
                    assert(added =~= prev + more);
                    assert(self.queue@.take(start) =~= before.take(start));
                    let t0 = station_transfer_targets(station.transfers@.take(k as int), self.stops@, data);
                    let t1 = present_ids(ids@, data).map_values(|id: StopId| (id, duration@));
                    assert(station_transfer_targets(station.transfers@.take(k + 1), self.stops@, data) =~= t0 + t1);
                    assert forall|j: int| 0 <= j < added.len() implies is_transfer_to(
                        #[trigger] added[j],
                        (t0 + t1)[j],
                        *station,
                        departure_time,
                        data,
                    ) by {
                        if j < prev.len() {
                            assert(added[j] == prev[j]);
                        } else {
                            assert(added[j] == more[j - prev.len()]);
                        }
                    }
                }
            } else {
                proof {
                    assert(station_transfer_targets(station.transfers@.take(k + 1), self.stops@, data) =~= station_transfer_targets(
                        station.transfers@.take(k as int),
                        self.stops@,
                        data,
                    ));
                }
            }
            k = k + 1;
        }
        proof {
            assert(station.transfers@.take(k as int) =~= station.transfers@);
            let q = self.queue@;
            assert forall|j: int| start <= j < q.len() implies (#[trigger] q[j]).variant is Transfer by {
                assert(q.skip(start)[j - start] == q[j]);
            }
        }
    }

    /// Queues transfers taking no time from `stop`, a stop of the data, to itself and to each
    /// of its children.
    fn enqueue_immediate_transfers_to_children_of(&mut self, stop: &'r Stop, arrival_time: Time)
        requires
            old(self).wf(),
            is_data_stop(*old(self).data, *stop),
            old(self).period@.0 <= arrival_time@,
            forall|s: StopId| #[trigger] old(self).stops@.contains_key(s) ==> old(self).stops@[s]@ <= arrival_time@,
        ensures
            final(self).wf(),
            old(self).queue@.len() <= final(self).queue@.len(),
            final(self).queue@.take(old(self).queue@.len() as int) == old(self).queue@,
            forall|k: int| old(self).queue@.len() <= k < final(self).queue@.len() ==> (#[trigger] final(self).queue@[k]).variant is Transfer,
            transfers_to(
                final(self).queue@.skip(old(self).queue@.len() as int),
                present_ids(with_children_ids(stop.stop_id, *old(self).data), *old(self).data).map_values(
                    |id: StopId| (id, 0int),
                ),
                *stop,
                arrival_time,
                *old(self).data,
            ),
            final(self).same_but_queue(*old(self)),
    {
        let ids = self.with_children_of(stop.stop_id);
        let zero = Duration::zero();
        self.queue_transfers_to_ids(&ids, stop, arrival_time, zero);
        proof {
            let data = *self.data;
            assert(present_ids(ids@, data).map_values(|id: StopId| (id, zero@)) =~= present_ids(ids@, data).map_values(
                |id: StopId| (id, 0int),
            ));
        }
    }

    /// The items of a trip for the search, given its stop times `stops` from the stop
    /// `to_stop` on: first the connection there, waiting from `departure_time` after a transfer
    /// from `from_stop`; then each later stop of the trip reached within the period, where both
    /// ends of the ride are stops of the data.
    /// The stops on the trip that the first `n` legs of `stops` reach within the period, each
    /// from the stop before it, where both stops are in the data.
    spec fn leg_items(&self, trip: &'r Trip, stops: Seq<StopTime>, n: int) -> Seq<QueueItem<'r>>
        decreases n,
    {
        if n <= 0 {
            Seq::empty()
        } else {
            let before = self.leg_items(trip, stops, n - 1);
            let from = stops[n - 1];
            let to = stops[n];
            if self.period@.0 <= to.arrival_time@ < self.period@.1 && self.data.stop_map().contains_key(to.stop_id)
                && self.data.stop_map().contains_key(from.stop_id) {
                before.push(
                    QueueItem {
                        to_stop: &self.data.stop_map()[to.stop_id],
                        arrival_time: to.arrival_time,
                        variant: QueueItemVariant::StopOnTrip {
                            trip_id: trip.trip_id,
                            route: &trip.route,
                            previous_arrival_time: from.arrival_time,
                            next_departure_time: to.departure_time,
                            from_stop: &self.data.stop_map()[from.stop_id],
                            departure_time: from.departure_time,
                        },
                    },
                )
            } else {
                before
            }
        }
    }

    fn trip_items(&self, to_stop: &'r Stop, trip: &'r Trip, stops: &'r [StopTime], from_stop: &'r Stop, departure_time: Time) -> (v: Vec<QueueItem<'r>>)
        requires
            self.data.wf(),
            stops@.len() > 0,
            forall|i: int, j: int| 0 <= i < j < stops@.len() ==> (#[trigger] stops@[i]).departure_time@ <= (
            #[trigger] stops@[j]).arrival_time@,
            forall|i: int| 0 <= i < stops@.len() ==> (#[trigger] stops@[i]).arrival_time@ <= stops@[i].departure_time@,
        ensures
            v@.len() >= 1,
            v@[0] == (QueueItem {
                arrival_time: stops@[0].departure_time,
                to_stop,
                variant: QueueItemVariant::Connection { departure_time, from_stop, trip_id: trip.trip_id, route: &trip.route },
            }),
            forall|k: int| 0 < k < v@.len() ==> {
                &&& (#[trigger] v@[k]).variant is StopOnTrip
                &&& trip_of(v@[k].variant) == Some(trip.trip_id)
                &&& is_data_stop(*self.data, *v@[k].to_stop)
                &&& self.period@.0 <= v@[k].arrival_time@ < self.period@.1
                &&& stops@[0].departure_time@ <= departure_of(v@[k].variant)->0@ <= v@[k].arrival_time@
                &&& is_data_stop(*self.data, from_stop_of(v@[k].variant)->0)
            },
            v@.drop_first() == self.leg_items(trip, stops@, stops@.len() - 1),
            forall|k: int| 0 <= k < v@.len() ==> route_of(#[trigger] v@[k]) == Some(trip.route),
    {
        let trip_id = trip.trip_id;
        let route = &trip.route;
        let mut v: Vec<QueueItem<'r>> = Vec::new();
        v.push(QueueItem {
            to_stop,
            arrival_time: stops[0].departure_time,
            variant: QueueItemVariant::Connection { trip_id, route, from_stop, departure_time },
        });
        let mut w: usize = 0;
        let last: usize = stops.len() - 1;
        while w < last
            invariant
                last + 1 == stops@.len(),
                trip_id == trip.trip_id,
                *route == trip.route,
                self.data.wf(),
                stops@.len() > 0,
                forall|i: int, j: int| 0 <= i < j < stops@.len() ==> (#[trigger] stops@[i]).departure_time@ <= (
                #[trigger] stops@[j]).arrival_time@,
                forall|i: int| 0 <= i < stops@.len() ==> (#[trigger] stops@[i]).arrival_time@ <= stops@[i].departure_time@,
                w <= last,
                v@.len() >= 1,
                v@[0] == (QueueItem {
                    arrival_time: stops@[0].departure_time,
                    to_stop,
                    variant: QueueItemVariant::Connection { departure_time, from_stop, trip_id: trip.trip_id, route: &trip.route },
                }),
                forall|k: int| 0 < k < v@.len() ==> {
                    &&& (#[trigger] v@[k]).variant is StopOnTrip
                    &&& trip_of(v@[k].variant) == Some(trip.trip_id)
                    &&& is_data_stop(*self.data, *v@[k].to_stop)
                    &&& self.period@.0 <= v@[k].arrival_time@ < self.period@.1
                    &&& stops@[0].departure_time@ <= departure_of(v@[k].variant)->0@ <= v@[k].arrival_time@
                    &&& is_data_stop(*self.data, from_stop_of(v@[k].variant)->0)
                },
                v@.drop_first() == self.leg_items(trip, stops@, w as int),
                forall|k: int| 0 <= k < v@.len() ==> route_of(#[trigger] v@[k]) == Some(trip.route),
            decreases stops@.len() - w,
        {
            let from = &stops[w];
            let to = &stops[w + 1];
            if self.period.contains(to.arrival_time) {
                match (self.data.get_stop(&to.stop_id), self.data.get_stop(&from.stop_id)) {
                    (Some(to_stop_stop), Some(from_stop_stop)) => {
                        let ghost before = v@;
                        v.push(QueueItem {
                            to_stop: to_stop_stop,
                            arrival_time: to.arrival_time,
                            variant: QueueItemVariant::StopOnTrip {
                                trip_id,
                                route,
                                previous_arrival_time: from.arrival_time,
                                next_departure_time: to.departure_time,
                                from_stop: from_stop_stop,
                                departure_time: from.departure_time,
                            },
                        });
                        proof {
                            assert(stops@[0].departure_time@ <= stops@[w + 1].arrival_time@);
                            assert(self.data.stop_map().contains_key(to.stop_id));
                            assert(self.data.stop_map()[to.stop_id].stop_id == to.stop_id);
                            assert(self.data.stop_map().contains_key(from.stop_id));
                            assert(self.data.stop_map()[from.stop_id].stop_id == from.stop_id);
                            if w > 0 {
                                assert(stops@[0].departure_time@ <= stops@[w as int].arrival_time@);
                            }
                            assert(stops@[w as int].arrival_time@ <= stops@[w as int].departure_time@);
                            assert(stops@[w as int].departure_time@ <= stops@[w + 1].arrival_time@);
                            assert forall|k: int| 0 < k < v@.len() implies {
                                &&& (#[trigger] v@[k]).variant is StopOnTrip
                                &&& trip_of(v@[k].variant) == Some(trip.trip_id)
                                &&& is_data_stop(*self.data, *v@[k].to_stop)
                                &&& self.period@.0 <= v@[k].arrival_time@ < self.period@.1
                                &&& stops@[0].departure_time@ <= departure_of(v@[k].variant)->0@ <= v@[k].arrival_time@
                                &&& is_data_stop(*self.data, from_stop_of(v@[k].variant)->0)
                            } by {
                                if k < before.len() {
                                    assert(v@[k] == before[k]);
                                }
                            }
                            assert(v@.drop_first() =~= before.drop_first().push(v@.last()));
                            assert(*to_stop_stop == self.data.stop_map()[to.stop_id]);
                            assert(*from_stop_stop == self.data.stop_map()[from.stop_id]);
                        }
                    },
                    _ => {},
                }
            }
            proof {
                let n = w + 1;
                assert(stops@[n - 1] == *from && stops@[n as int] == *to);
                assert(self.leg_items(trip, stops@, n as int) == if self.period@.0 <= to.arrival_time@ < self.period@.1
                    && self.data.stop_map().contains_key(to.stop_id) && self.data.stop_map().contains_key(from.stop_id) {
                    self.leg_items(trip, stops@, w as int).push(
                        QueueItem {
                            to_stop: &self.data.stop_map()[to.stop_id],
                            arrival_time: to.arrival_time,
                            variant: QueueItemVariant::StopOnTrip {
                                trip_id: trip.trip_id,
                                route: &trip.route,
                                previous_arrival_time: from.arrival_time,
                                next_departure_time: to.departure_time,
                                from_stop: &self.data.stop_map()[from.stop_id],
                                departure_time: from.departure_time,
                            },
                        },
                    )
                } else {
                    self.leg_items(trip, stops@, w as int)
                });
            }
            w = w + 1;
        }
        v
    }

    /// Queues the items of a trip not queued before, and records the trip as queued.
    fn queue_trip(&mut self, trip_id: TripId, batch: Vec<QueueItem<'r>>, arrival_time: Time)
        requires
            old(self).wf(),
            forall|k: int| 0 <= k < batch@.len() ==> route_ok(#[trigger] batch@[k], old(self).route_types@),
            !old(self).enqueued_trips@.contains(trip_id),
            old(self).data.trip_map().contains_key(trip_id),
            forall|s: StopId| #[trigger] old(self).stops@.contains_key(s) ==> old(self).stops@[s]@ <= arrival_time@,
            batch@.len() >= 1,
            batch@[0].variant is Connection,
            trip_of(batch@[0].variant) == Some(trip_id),
            is_data_stop(*old(self).data, *batch@[0].to_stop),
            old(self).stops@.contains_key(batch@[0].to_stop.stop_id),
            arrival_time@ <= batch@[0].arrival_time@,
            old(self).period@.0 <= arrival_time@,
            forall|k: int| 0 < k < batch@.len() ==> {
                &&& (#[trigger] batch@[k]).variant is StopOnTrip
                &&& trip_of(batch@[k].variant) == Some(trip_id)
                &&& is_data_stop(*old(self).data, *batch@[k].to_stop)
                &&& batch@[0].arrival_time@ <= departure_of(batch@[k].variant)->0@ <= batch@[k].arrival_time@
                &&& is_data_stop(*old(self).data, from_stop_of(batch@[k].variant)->0)
            },
        ensures
            final(self).wf(),
            final(self).queue@ == old(self).queue@ + batch@,
            final(self).enqueued_trips@ == old(self).enqueued_trips@.insert(trip_id),
            final(self).period == old(self).period,
            final(self).route_types@ == old(self).route_types@,
            final(self).data == old(self).data,
            final(self).services@ == old(self).services@,
            final(self).catch_up@ == old(self).catch_up@,
            final(self).slow() == old(self).slow(),
            final(self).stops@ == old(self).stops@,
            final(self).emitted_stations@ == old(self).emitted_stations@,
    {
        self.enqueued_trips.insert(trip_id);
        let mut k: usize = 0;
        let ghost oq = old(self).queue@;
        while k < batch.len()
            invariant
                k <= batch@.len(),
                self.queue@ == oq + batch@.take(k as int),
                self.enqueued_trips@ == old(self).enqueued_trips@.insert(trip_id),
                self.period == old(self).period,
                self.route_types@ == old(self).route_types@,
                self.data == old(self).data,
                self.services@ == old(self).services@,
                self.catch_up@ == old(self).catch_up@,
                self.slow() == old(self).slow(),
                self.stops@ == old(self).stops@,
                self.emitted_stations@ == old(self).emitted_stations@,
            decreases batch@.len() - k,
        {
            self.queue.push(batch[k]);
            k = k + 1;
            assert(self.queue@ =~= oq + batch@.take(k as int));
        }
        proof {
            assert(batch@.take(k as int) =~= batch@);
            let q = self.queue@;
            let n = oq.len();
            let data = *self.data;
            let en = self.enqueued_trips@;
            let slow = self.slow();
            assert(slow_ok(slow, en));
            assert forall|i: int| 0 <= i < q.len() implies item_ok(#[trigger] q[i], data, self.stops@, en, slow) by {
                if i < n {
                    assert(q[i] == oq[i]);
                    assert(item_ok(oq[i], data, self.stops@, old(self).enqueued_trips@, slow));
                } else {
                    assert(q[i] == batch@[i - n]);
                    if i > n {
                        assert(batch@[0].arrival_time@ <= departure_of(batch@[i - n].variant)->0@);
                    }
                }
            }
            assert forall|i: int, j: int|
                0 <= i < q.len() && 0 <= j < q.len() && i != j && (#[trigger] q[i]).variant is Connection
                    && (#[trigger] q[j]).variant is Connection implies trip_of(q[i].variant) != trip_of(q[j].variant) by {
                if i < n && j < n {
                    assert(q[i] == oq[i] && q[j] == oq[j]);
                } else if i < n {
                    assert(q[i] == oq[i]);
                    assert(item_ok(oq[i], data, self.stops@, old(self).enqueued_trips@, old(self).slow()));
                    assert(q[j] == batch@[j - n]);
                } else if j < n {
                    assert(q[j] == oq[j]);
                    assert(item_ok(oq[j], data, self.stops@, old(self).enqueued_trips@, old(self).slow()));
                    assert(q[i] == batch@[i - n]);
                } else {
                    assert(q[i] == batch@[i - n] && q[j] == batch@[j - n]);
                }
            }
            assert forall|i: int, j: int|
                0 <= i < q.len() && 0 <= j < q.len() && (#[trigger] q[i]).variant is Connection
                    && (#[trigger] q[j]).variant is StopOnTrip && trip_of(q[i].variant) == trip_of(q[j].variant) implies outranks(
                q[i],
                q[j],
            ) by {
                if i < n && j < n {
                    assert(q[i] == oq[i] && q[j] == oq[j]);
                } else if i < n {
                    assert(q[i] == oq[i]);
                    assert(item_ok(oq[i], data, self.stops@, old(self).enqueued_trips@, old(self).slow()));
                    assert(q[j] == batch@[j - n]);
                } else if j < n {
                    assert(q[j] == oq[j]);
                    assert(item_ok(oq[j], data, self.stops@, old(self).enqueued_trips@, old(self).slow()));
                    assert(q[i] == batch@[i - n]);
                } else {
                    assert(q[i] == batch@[i - n] && q[j] == batch@[j - n]);
                    assert(i == n);
                    lemma_outranks_by_arrival(q[i], q[j]);
                }
            }
        }
    }

    /// Queues the connections at the stop of `item`, reached by a transfer from `from_stop`
    /// leaving at `departure_time`, to the trips that leave it later in the period on the
    /// services and kinds of routes searched, each with its later stops, for each trip not
    /// queued before. Says whether any trip was queued.
    fn enqueue_connections_and_trips(&mut self, item: &QueueItem<'r>, from_stop: &'r Stop, departure_time: Time) -> (extended: bool)
        requires
            old(self).wf(),
            is_data_stop(*old(self).data, *item.to_stop),
            old(self).period@.0 <= item.arrival_time@ < old(self).period@.1,
            old(self).stops@.contains_key(item.to_stop.stop_id),
            forall|s: StopId| #[trigger] old(self).stops@.contains_key(s) ==> old(self).stops@[s]@ <= item.arrival_time@,
        ensures
            final(self).wf(),
            old(self).queue@.len() <= final(self).queue@.len(),
            final(self).queue@.take(old(self).queue@.len() as int) == old(self).queue@,
            forall|k: int| old(self).queue@.len() <= k < final(self).queue@.len() ==> {
                &&& trip_of((#[trigger] final(self).queue@[k]).variant) is Some
                &&& !old(self).enqueued_trips@.contains(trip_of(final(self).queue@[k].variant)->0)
                &&& old(self).period@.0 <= final(self).queue@[k].arrival_time@ < old(self).period@.1
            },
            old(self).enqueued_trips@.subset_of(final(self).enqueued_trips@),
            extended == (final(self).queue@.len() > old(self).queue@.len()),
            forall|t: TripId| #[trigger] final(self).enqueued_trips@.contains(t) <==> (old(self).enqueued_trips@.contains(t)
                || exists|j: int| 0 <= j < old(self).departing_refs(*item).len() && old(self).departing_refs(*item)[j].0 == t
                && old(self).searched_trip(t)),
            extended <==> exists|j: int| 0 <= j < old(self).departing_refs(*item).len() && !old(
                self,
            ).enqueued_trips@.contains(#[trigger] old(self).departing_refs(*item)[j].0) && old(self).searched_trip(
                old(self).departing_refs(*item)[j].0,
            ),
            final(self).period == old(self).period,
            final(self).route_types@ == old(self).route_types@,
            final(self).data == old(self).data,
            final(self).services@ == old(self).services@,
            final(self).catch_up@ == old(self).catch_up@,
            final(self).slow() == old(self).slow(),
            final(self).stops@ == old(self).stops@,
            final(self).emitted_stations@ == old(self).emitted_stations@,
    {
        let ghost data = *self.data;
        let period = self.period.with_start(item.arrival_time);
        let trips = self.data.trips_from(item.to_stop, &self.services, period);
        let mut extended = false;
        let mut i: usize = 0;
        let ghost start = self.queue@.len() as int;
        let ghost refs = old(self).departing_refs(*item);
        proof {
            assert(self.queue@.take(start) =~= self.queue@);
            let refs = crate::search_data::trips_from_refs(
                data.trip_map(),
                self.services@,
                item.to_stop.spec_departures(period@),
            );
            assert forall|t: int| 0 <= t < trips@.len() implies exists|idx: int|
                0 <= idx < (#[trigger] trips@[t]).0.stop_times@.len() && trips@[t].1@ == trips@[t].0.stop_times@.skip(idx) by {
                let r = refs[t];
                assert(trips@[t].1@ == trips@[t].0.stop_times@.skip(r.1 as int));
            }
        }
        while i < trips.len()
            invariant
                self.wf(),
                data == *self.data,
                i <= trips@.len(),
                is_data_stop(data, *item.to_stop),
                self.period@.0 <= item.arrival_time@ < self.period@.1,
                period@ == (item.arrival_time@, self.period@.1),
                self.stops@.contains_key(item.to_stop.stop_id),
                forall|s: StopId| #[trigger] self.stops@.contains_key(s) ==> self.stops@[s]@ <= item.arrival_time@,
                forall|t: int| #![trigger trips@[t]] 0 <= t < trips@.len() ==> {
                    &&& data.trip_map().contains_key(trips@[t].0.trip_id)
                    &&& *trips@[t].0 == data.trip_map()[trips@[t].0.trip_id]
                    &&& trips@[t].1@.len() > 0
                    &&& period@.0 <= trips@[t].1@[0].departure_time@ < period@.1
                    &&& exists|idx: int| 0 <= idx < trips@[t].0.stop_times@.len() && trips@[t].1@ == trips@[t].0.stop_times@.skip(idx)
                },
                start == old(self).queue@.len(),
                start <= self.queue@.len(),
                self.queue@.take(start) == old(self).queue@,
                forall|k: int| start <= k < self.queue@.len() ==> {
                    &&& trip_of((#[trigger] self.queue@[k]).variant) is Some
                    &&& !old(self).enqueued_trips@.contains(trip_of(self.queue@[k].variant)->0)
                    &&& old(self).period@.0 <= self.queue@[k].arrival_time@ < old(self).period@.1
                },
                old(self).enqueued_trips@.subset_of(self.enqueued_trips@),
                extended == (self.queue@.len() > start),
                refs == old(self).departing_refs(*item),
                refs.len() == trips@.len(),
                forall|t: int| 0 <= t < trips@.len() ==> (#[trigger] trips@[t]).0.trip_id == refs[t].0,
                forall|t: TripId| #[trigger] self.enqueued_trips@.contains(t) <==> (old(self).enqueued_trips@.contains(t)
                    || exists|j: int| 0 <= j < i && refs[j].0 == t && old(self).searched_trip(t)),
                extended <==> exists|j: int| 0 <= j < i && !old(self).enqueued_trips@.contains(#[trigger] refs[j].0)
                    && old(self).searched_trip(refs[j].0),
                self.period == old(self).period,
                self.route_types@ == old(self).route_types@,
                self.data == old(self).data,
                self.services@ == old(self).services@,
                self.catch_up@ == old(self).catch_up@,
                self.slow() == old(self).slow(),
                self.stops@ == old(self).stops@,
                self.emitted_stations@ == old(self).emitted_stations@,
            decreases trips@.len() - i,
        {
            let (trip, stops) = trips[i];
            let ghost en_before = self.enqueued_trips@;
            let ghost ext_before = extended;
            proof {
                assert(trips@[i as int].0.trip_id == refs[i as int].0);
                assert(*trip == data.trip_map()[trip.trip_id]);
                assert(old(self).searched_trip(trip.trip_id) == self.route_types@.contains(trip.route.route_type));
            }
            if self.has_route_type(trip.route.route_type) {
                proof {
                    let idx = choose|idx: int| 0 <= idx < trip.stop_times@.len() && stops@ == trip.stop_times@.skip(idx);
                    assert(trips_ordered(data));
                    assert forall|a: int, b: int| 0 <= a < b < stops@.len() implies (#[trigger] stops@[a]).departure_time@
                        <= (#[trigger] stops@[b]).arrival_time@ by {
                        assert(stops@[a] == data.trip_map()[trip.trip_id].stop_times@[idx + a]);
                        assert(stops@[b] == data.trip_map()[trip.trip_id].stop_times@[idx + b]);
                    }
                    assert forall|a: int| 0 <= a < stops@.len() implies (#[trigger] stops@[a]).arrival_time@
                        <= stops@[a].departure_time@ by {
                        assert(stops@[a] == data.trip_map()[trip.trip_id].stop_times@[idx + a]);
                    }
                }
                let batch = self.trip_items(item.to_stop, trip, stops, from_stop, departure_time);
                if !self.enqueued_trips.contains(&trip.trip_id) {
                    let ghost before = self.queue@;
                    proof {
                        assert(!old(self).enqueued_trips@.contains(trip.trip_id));
                    }
                    self.queue_trip(trip.trip_id, batch, item.arrival_time);
                    extended = true;
                    proof {
                        let q = self.queue@;
                        assert forall|k: int| start <= k < q.len() implies {
                            &&& trip_of((#[trigger] q[k]).variant) is Some
                            &&& !old(self).enqueued_trips@.contains(trip_of(q[k].variant)->0)
                            &&& old(self).period@.0 <= q[k].arrival_time@ < old(self).period@.1
                        } by {
                            if k < before.len() {
                                assert(q[k] == before[k]);
                            } else {
                                assert(q[k] == batch@[k - before.len()]);
                            }
                        }
                        assert(q.take(start) =~= before.take(start));
                    }
                }
            }
            proof {
                let id = refs[i as int].0;
                assert forall|t: TripId| #[trigger] self.enqueued_trips@.contains(t) <==> (old(self).enqueued_trips@.contains(t)
                    || exists|j: int| 0 <= j < i + 1 && refs[j].0 == t && old(self).searched_trip(t)) by {
                    if t == id && old(self).searched_trip(t) {
                        assert(refs[i as int].0 == t);
                    }
                    if exists|j: int| 0 <= j < i + 1 && refs[j].0 == t && old(self).searched_trip(t) {
                        let j = choose|j: int| 0 <= j < i + 1 && refs[j].0 == t && old(self).searched_trip(t);
                        if j < i {
                            assert(en_before.contains(t));
                        }
                    }
                    if en_before.contains(t) && !old(self).enqueued_trips@.contains(t) {
                        let j = choose|j: int| 0 <= j < i && refs[j].0 == t && old(self).searched_trip(t);
                        assert(0 <= j < i + 1);
                    }
                }
                if !old(self).enqueued_trips@.contains(id) && old(self).searched_trip(id) {
                    assert(0 <= i < i + 1 && !old(self).enqueued_trips@.contains(refs[i as int].0));
                    if en_before.contains(id) {
                        let j = choose|j: int| 0 <= j < i && refs[j].0 == id && old(self).searched_trip(id);
                        assert(!old(self).enqueued_trips@.contains(refs[j].0));
                    }
                }
                if extended {
                    if !ext_before {
                        assert(!old(self).enqueued_trips@.contains(refs[i as int].0) && old(self).searched_trip(refs[i as int].0));
                    } else {
                        let j = choose|j: int| 0 <= j < i && !old(self).enqueued_trips@.contains(#[trigger] refs[j].0)
                            && old(self).searched_trip(refs[j].0);
                        assert(0 <= j < i + 1);
                    }
                }
            }
            i = i + 1;
        }
        extended
    }

    /// The late arrivals of a trip that became useful, from where to board it: when the stop
    /// reached earliest among those they come from is not the first, a new connection there
    /// followed by the arrivals from it on; otherwise all of them.
    fn filter_slow_trip(&self, slow_trip: Vec<QueueItem<'r>>) -> (v: Vec<QueueItem<'r>>)
        requires
            forall|k: int| 0 <= k < slow_trip@.len() ==> (trip_of((#[trigger] slow_trip@[k]).variant) is Some) && (k
                > 0 ==> slow_trip@[k].variant is StopOnTrip),
        ensures
            (forall|b: int| is_boarding(slow_trip@, self.stops@, b) ==> b == 0) ==> v@ == slow_trip@,
            forall|b: int| is_boarding(slow_trip@, self.stops@, b) && b > 0 ==> v@ == seq![
                boarding_connection(slow_trip@[b], from_arrival(slow_trip@[b], self.stops@)),
            ] + slow_trip@.skip(b),
    {
        let ghost items = slow_trip@;
        let ghost arrivals = self.stops@;
        let mut best: Option<(usize, Time)> = None;
        let mut i: usize = 0;
        while i < slow_trip.len()
            invariant
                i <= items.len(),
                items == slow_trip@,
                arrivals == self.stops@,
                match best {
                    None => forall|j: int| 0 <= j < i ==> !has_arrival(#[trigger] items[j], arrivals),
                    Some((b, t)) => {
                        &&& b < i
                        &&& has_arrival(items[b as int], arrivals)
                        &&& t == from_arrival(items[b as int], arrivals)
                        &&& forall|j: int| 0 <= j < i && #[trigger] has_arrival(items[j], arrivals) ==> t@
                            <= from_arrival(items[j], arrivals)@
                        &&& forall|j: int| 0 <= j < b && #[trigger] has_arrival(items[j], arrivals) ==> t@
                            < from_arrival(items[j], arrivals)@
                    },
                },
            decreases items.len() - i,
        {
            match slow_trip[i].variant.get_from_stop() {
                Some(from_stop) => match self.earliest_arrival_at(from_stop.stop_id) {
                    Some(t) => {
                        match best {
                            None => {
                                best = Some((i, t));
                            },
                            Some((_, bt)) => {
                                if t.is_before(bt) {
                                    best = Some((i, t));
                                }
                            },
                        }
                    },
                    None => {},
                },
                None => {},
            }
            i = i + 1;
        }
        proof {
            if let Some((b, t)) = best {
                assert(is_boarding(items, arrivals, b as int));
                assert forall|b2: int| is_boarding(items, arrivals, b2) implies b2 == b by {
                    if b2 < b {
                        assert(from_arrival(items[b as int], arrivals)@ < from_arrival(items[b2], arrivals)@);
                    } else if b2 > b {
                        assert(from_arrival(items[b2], arrivals)@ < from_arrival(items[b as int], arrivals)@);
                    }
                }
            } else {
                assert forall|b2: int| is_boarding(items, arrivals, b2) implies b2 == 0 by {
                    assert(!has_arrival(items[b2], arrivals));
                }
            }
        }
        match best {
            Some((b, first_arrival)) => {
                if b > 0 {
                    match slow_trip[b].variant {
                        QueueItemVariant::StopOnTrip { from_stop, departure_time, trip_id, route, .. } => {
                            let connection = QueueItem {
                                arrival_time: departure_time,
                                to_stop: from_stop,
                                variant: QueueItemVariant::Connection {
                                    from_stop,
                                    departure_time: first_arrival,
                                    trip_id,
                                    route,
                                },
                            };
                            let mut v: Vec<QueueItem<'r>> = Vec::new();
                            v.push(connection);
                            let mut j: usize = b;
                            while j < slow_trip.len()
                                invariant
                                    b <= j <= items.len(),
                                    items == slow_trip@,
                                    v@ == seq![connection] + items.subrange(b as int, j as int),
                                decreases items.len() - j,
                            {
                                v.push(slow_trip[j]);
                                j = j + 1;
                                assert(v@ =~= seq![connection] + items.subrange(b as int, j as int));
                            }
                            assert(items.subrange(b as int, j as int) =~= items.skip(b as int));
                            v
                        },
                        _ => slow_trip,
                    }
                } else {
                    slow_trip
                }
            },
            None => slow_trip,
        }
    }

    /// The item handed out for a processed queue item: none for an origin; for a stop on a
    /// trip, leaving at the arrival at the previous stop when that was the earliest arrival
    /// there, and arriving at the next departure when the arrival is not the earliest.
    fn convert_item(&self, item: QueueItem<'r>) -> (r: Option<Item<'r>>)
        ensures
            match item.variant {
                QueueItemVariant::OriginStation => r is None,
                QueueItemVariant::Transfer { departure_time, from_stop } => r == Some(
                    Item::Transfer { departure_time, arrival_time: item.arrival_time, from_stop, to_stop: item.to_stop },
                ),
                QueueItemVariant::Connection { departure_time, from_stop, trip_id, route } => r matches Some(
                    Item::ConnectionToTrip {
                        departure_time: d,
                        arrival_time: a,
                        from_stop: f,
                        to_stop: t,
                        route_name,
                        route_type,
                        route_color,
                        trip_id: id,
                    },
                ) && d == departure_time && a == item.arrival_time && f == from_stop && t == item.to_stop
                    && route_name@ == route.route_short_name@ && route_type == route.route_type && route_color@
                    == route.route_color@ && id == trip_id,
                QueueItemVariant::StopOnTrip {
                    departure_time,
                    from_stop,
                    trip_id,
                    route,
                    previous_arrival_time,
                    next_departure_time,
                } => r matches Some(
                    Item::SegmentOfTrip {
                        departure_time: d,
                        arrival_time: a,
                        from_stop: f,
                        to_stop: t,
                        trip_id: id,
                        route_name,
                        route_type,
                        route_color,
                    },
                ) && d == (if self.stops@.contains_key(from_stop.stop_id) && self.stops@[from_stop.stop_id]@
                    == previous_arrival_time@ {
                    previous_arrival_time
                } else {
                    departure_time
                }) && a == (if !self.stops@.contains_key(item.to_stop.stop_id) || item.arrival_time@
                    > self.stops@[item.to_stop.stop_id]@ {
                    next_departure_time
                } else {
                    item.arrival_time
                }) && f == from_stop && t == item.to_stop && id == trip_id && route_name@ == route.route_short_name@
                    && route_type == route.route_type && route_color@ == route.route_color@,
            },
    {
        let to_stop = item.to_stop;
        let arrival_time = item.arrival_time;
        match item.variant {
            QueueItemVariant::OriginStation => None,
            QueueItemVariant::Transfer { from_stop, departure_time } => Some(
                Item::Transfer { from_stop, to_stop, departure_time, arrival_time },
            ),
            QueueItemVariant::Connection { trip_id, route, from_stop, departure_time } => Some(
                Item::ConnectionToTrip {
                    from_stop,
                    to_stop,
                    departure_time,
                    arrival_time,
                    route_name: route.route_short_name.as_str(),
                    route_type: route.route_type,
                    route_color: route.route_color.as_str(),
                    trip_id,
                },
            ),
            QueueItemVariant::StopOnTrip {
                trip_id,
                route,
                previous_arrival_time,
                next_departure_time,
                from_stop,
                departure_time,
            } => {
                let mut departure_time = departure_time;
                let mut arrival_time = arrival_time;
                match self.earliest_arrival_at(from_stop.stop_id) {
                    Some(t) => {
                        if t.seconds_since_midnight() == previous_arrival_time.seconds_since_midnight() {
                            departure_time = previous_arrival_time;
                        }
                    },
                    None => {},
                }
                match self.earliest_arrival_at(to_stop.stop_id) {
                    Some(t) => {
                        if arrival_time.is_after(t) {
                            arrival_time = next_departure_time;
                        }
                    },
                    None => {
                        arrival_time = next_departure_time;
                    },
                }
                Some(
                    Item::SegmentOfTrip {
                        from_stop,
                        to_stop,
                        departure_time,
                        arrival_time,
                        trip_id,
                        route_name: route.route_short_name.as_str(),
                        route_type: route.route_type,
                        route_color: route.route_color.as_str(),
                    },
                )
            },
        }
    }

    /// Keeps a late arrival of the trip `trip_id`.
    fn push_slow(&mut self, trip_id: TripId, item: QueueItem<'r>)
        requires
            old(self).wf(),
            route_ok(item, old(self).route_types@),
            trip_of(item.variant) == Some(trip_id),
            old(self).enqueued_trips@.contains(trip_id),
            is_data_stop(*old(self).data, *item.to_stop),
            item.variant is StopOnTrip ==> is_data_stop(*old(self).data, from_stop_of(item.variant)->0),
            item.variant is Connection ==> !old(self).slow().contains_key(trip_id),
            old(self).period@.0 <= item.arrival_time@ < old(self).period@.1,
            item.variant is StopOnTrip ==> old(self).period@.0 <= departure_of(item.variant)->0@ <= item.arrival_time@,
            forall|i: int| 0 <= i < old(self).queue@.len() ==> !((#[trigger] old(self).queue@[i]).variant is Connection
                && trip_of(old(self).queue@[i].variant) == Some(trip_id)),
        ensures
            final(self).wf(),
            final(self).slow() == old(self).slow().insert(
                trip_id,
                if old(self).slow().contains_key(trip_id) {
                    old(self).slow()[trip_id].push(item)
                } else {
                    seq![item]
                },
            ),
            final(self).queue@ == old(self).queue@,
            final(self).period == old(self).period,
            final(self).route_types@ == old(self).route_types@,
            final(self).data == old(self).data,
            final(self).services@ == old(self).services@,
            final(self).catch_up@ == old(self).catch_up@,
            final(self).enqueued_trips@ == old(self).enqueued_trips@,
            final(self).stops@ == old(self).stops@,
            final(self).emitted_stations@ == old(self).emitted_stations@,
    {
        let mut list = match self.slow_trips.remove(&trip_id) {
            Some(l) => l,
            None => Vec::new(),
        };
        list.push(item);
        self.slow_trips.insert(trip_id, list);
        proof {
            let ns = self.slow();
            let os = old(self).slow();
            let nl = if os.contains_key(trip_id) {
                os[trip_id].push(item)
            } else {
                seq![item]
            };
            assert(ns =~= os.insert(trip_id, nl));
            let q = self.queue@;
            assert forall|i: int| 0 <= i < q.len() implies item_ok(
                #[trigger] q[i],
                *self.data,
                self.stops@,
                self.enqueued_trips@,
                ns,
            ) by {
                assert(item_ok(q[i], *self.data, self.stops@, self.enqueued_trips@, os));
            }
            assert forall|t: TripId, k: int| ns.contains_key(t) && 0 <= k < ns[t].len() implies trip_of(
                (#[trigger] ns[t][k]).variant,
            ) == Some(t) && (k > 0 ==> ns[t][k].variant is StopOnTrip) && (self.period@.0 <= ns[t][k].arrival_time@
                < self.period@.1) && (ns[t][k].variant is StopOnTrip ==> self.period@.0 <= departure_of(
                ns[t][k].variant,
            )->0@ <= ns[t][k].arrival_time@) && is_data_stop(*self.data, *ns[t][k].to_stop) && (
            ns[t][k].variant is StopOnTrip ==> is_data_stop(*self.data, from_stop_of(ns[t][k].variant)->0)) by {
                if t == trip_id && os.contains_key(trip_id) && k < os[trip_id].len() {
                    assert(ns[t][k] == os[t][k]);
                }
            }
        }
    }

    /// Processes a candidate arrival taken from the queue, within the period: if it is the
    /// earliest at its stop, queues what follows from it; returns the items to hand out now.
    fn process_queue_item(&mut self, item: QueueItem<'r>) -> (v: Vec<QueueItem<'r>>)
        requires
            old(self).wf(),
            route_ok(item, old(self).route_types@),
            item_ok(item, *old(self).data, old(self).stops@, old(self).enqueued_trips@, old(self).slow()),
            old(self).period@.0 <= item.arrival_time@ < old(self).period@.1,
            item.variant is StopOnTrip ==> old(self).period@.0 <= departure_of(item.variant)->0@ <= item.arrival_time@,
            forall|i: int| 0 <= i < old(self).queue@.len() ==> !outranks(#[trigger] old(self).queue@[i], item),
            forall|i: int|
                0 <= i < old(self).queue@.len() && (#[trigger] old(self).queue@[i]).variant is Connection && trip_of(
                    item.variant,
                ) is Some ==> trip_of(old(self).queue@[i].variant) != trip_of(item.variant),
        ensures
            final(self).wf(),
            final(self).stops@ == if old(self).stops@.contains_key(item.to_stop.stop_id) {
                old(self).stops@
            } else {
                old(self).stops@.insert(item.to_stop.stop_id, item.arrival_time)
            },
            old(self).queue@.len() <= final(self).queue@.len(),
            final(self).queue@.take(old(self).queue@.len() as int) == old(self).queue@,
            final(self).queue@.len() > old(self).queue@.len() ==> !old(self).stops@.contains_key(item.to_stop.stop_id),
            forall|k: int| 0 <= k < v@.len() ==> old(self).period@.0 <= (#[trigger] v@[k]).arrival_time@ < old(
                self,
            ).period@.1,
            forall|k: int| 0 <= k < v@.len() ==> is_data_stop(*old(self).data, *(#[trigger] v@[k]).to_stop) && (trip_of(
                v@[k].variant,
            ) is Some ==> old(self).data.trip_map().contains_key(trip_of(v@[k].variant)->0)),
            old(self).enqueued_trips@.subset_of(final(self).enqueued_trips@),
            final(self).period == old(self).period,
            final(self).route_types@ == old(self).route_types@,
            final(self).data == old(self).data,
            final(self).services@ == old(self).services@,
            final(self).catch_up@ == old(self).catch_up@,
            final(self).emitted_stations@ == old(self).emitted_stations@,
            forall|k: int| 0 <= k < v@.len() ==> route_ok(#[trigger] v@[k], old(self).route_types@),
            old(self).stops@.contains_key(item.to_stop.stop_id) ==> {
                &&& v@.len() == 0
                &&& final(self).queue@ == old(self).queue@
                &&& final(self).slow() == match item.variant {
                    QueueItemVariant::StopOnTrip { trip_id, .. } => with_slow(old(self).slow(), trip_id, item),
                    QueueItemVariant::Connection { trip_id, .. } => with_slow(old(self).slow(), trip_id, item),
                    _ => old(self).slow(),
                }
            },
            !old(self).stops@.contains_key(item.to_stop.stop_id) ==> match item.variant {
                QueueItemVariant::OriginStation => {
                    &&& v@ == seq![item]
                    &&& exists|m: int|
                        old(self).queue@.len() <= m <= final(self).queue@.len() && transfers_to(
                            #[trigger] final(self).queue@.subrange(old(self).queue@.len() as int, m),
                            present_ids(with_children_ids(item.to_stop.stop_id, *old(self).data), *old(self).data).map_values(
                                |id: StopId| (id, 0int),
                            ),
                            *item.to_stop,
                            item.arrival_time,
                            *old(self).data,
                        ) && transfers_to(
                            final(self).queue@.skip(m),
                            station_transfer_targets(
                                item.to_stop.transfers@,
                                old(self).stops@.insert(item.to_stop.stop_id, item.arrival_time),
                                *old(self).data,
                            ),
                            *item.to_stop,
                            item.arrival_time,
                            *old(self).data,
                        )
                },
                QueueItemVariant::Transfer { from_stop, .. } => {
                    &&& v@ == if final(self).queue@.len() > old(self).queue@.len() && from_stop.spec_station_id()
                        != item.to_stop.spec_station_id() {
                        seq![item]
                    } else {
                        Seq::empty()
                    }
                    &&& forall|t: TripId| #[trigger] final(self).enqueued_trips@.contains(t) <==> (old(
                        self,
                    ).enqueued_trips@.contains(t) || exists|j: int|
                        0 <= j < old(self).departing_refs(item).len() && old(self).departing_refs(item)[j].0 == t
                            && old(self).searched_trip(t))
                    &&& final(self).queue@.len() > old(self).queue@.len() <==> exists|j: int|
                        0 <= j < old(self).departing_refs(item).len() && !old(self).enqueued_trips@.contains(
                            #[trigger] old(self).departing_refs(item)[j].0,
                        ) && old(self).searched_trip(old(self).departing_refs(item)[j].0)
                    &&& forall|k: int| old(self).queue@.len() <= k < final(self).queue@.len() ==> {
                        &&& trip_of((#[trigger] final(self).queue@[k]).variant) is Some
                        &&& !old(self).enqueued_trips@.contains(trip_of(final(self).queue@[k].variant)->0)
                        &&& final(self).enqueued_trips@.contains(trip_of(final(self).queue@[k].variant)->0)
                    }
                },
                QueueItemVariant::Connection { .. } => v@.len() == 0,
                QueueItemVariant::StopOnTrip { trip_id, .. } => if old(self).emitted_stations@.contains(
                    item.to_stop.spec_station_id(),
                ) {
                    v@.len() == 0 && final(self).slow() == with_slow(old(self).slow(), trip_id, item)
                } else if old(self).slow().contains_key(trip_id) {
                    v@ == slow_from_boarding(old(self).slow()[trip_id], final(self).stops@).push(item)
                } else {
                    v@ == seq![item]
                },
            },
    {
        let ghost old_queue = self.queue@;
        let ghost t = item.arrival_time;
        proof {
            assert forall|i: int| 0 <= i < old_queue.len() implies item.arrival_time@ <= (
            #[trigger] old_queue[i]).arrival_time@ by {
                if old_queue[i].arrival_time@ < item.arrival_time@ {
                    lemma_outranks_by_arrival(old_queue[i], item);
                }
            }
        }
        let earlier = self.set_arrival_time(item.to_stop.stop_id, item.arrival_time);
        proof {
            let q = self.queue@;
            assert forall|i: int| 0 <= i < q.len() implies item_ok(
                #[trigger] q[i],
                *self.data,
                self.stops@,
                self.enqueued_trips@,
                self.slow(),
            ) by {
                assert(item_ok(q[i], *self.data, old(self).stops@, self.enqueued_trips@, self.slow()));
                assert(item.arrival_time@ <= q[i].arrival_time@);
            }
            assert(self.slow() == old(self).slow());
            assert(forall|s: StopId| #[trigger] self.stops@.contains_key(s) ==> self.stops@[s]@ <= item.arrival_time@);
        }
        if earlier {
            match item.variant {
                QueueItemVariant::StopOnTrip { trip_id, .. } => {
                    if !item.to_stop.is_station() {
                        self.enqueue_transfers_from_stop(item.to_stop, item.arrival_time);
                    }
                    let ghost q1 = self.queue@;
                    match self.data.get_stop(&item.to_stop.station_id()) {
                        Some(to_station) => {
                            proof {
                                assert(self.data.stop_map()[to_station.stop_id] == *to_station);
                            }
                            self.enqueue_transfers_from_station(to_station, item.arrival_time);
                        },
                        None => {},
                    }
                    proof {
                        let q = self.queue@;
                        assert forall|i: int| 0 <= i < q.len() implies !((#[trigger] q[i]).variant is Connection
                            && trip_of(q[i].variant) == Some(trip_id)) by {
                            if i < old_queue.len() {
                                assert(q[i] == old_queue[i]);
                                if q[i].variant is Connection && trip_of(q[i].variant) == Some(trip_id) {
                                    assert(outranks(old_queue[i], item));
                                }
                            } else if i < q1.len() {
                                assert(q[i] == q1[i]);
                            }
                        }
                    }
                    if self.emitted_stations.contains(&item.to_stop.station_id()) {
                        self.push_slow(trip_id, item);
                        Vec::new()
                    } else {
                        match self.slow_trips.remove(&trip_id) {
                            Some(slow_trip) => {
                                let ghost before_emit = self.slow();
                                proof {
                                    assert(self.slow() =~= old(self).slow().remove(trip_id));
                                    assert(slow_trip@ == old(self).slow()[trip_id]);
                                    let ns = self.slow();
                                    let os = old(self).slow();
                                    assert forall|t: TripId, k: int| ns.contains_key(t) && 0 <= k < ns[t].len() implies trip_of(
                                        (#[trigger] ns[t][k]).variant,
                                    ) == Some(t) && (k > 0 ==> ns[t][k].variant is StopOnTrip) && (self.period@.0
                                        <= ns[t][k].arrival_time@ < self.period@.1) && (ns[t][k].variant is StopOnTrip
                                        ==> self.period@.0 <= departure_of(ns[t][k].variant)->0@ <= ns[t][k].arrival_time@)
                                        && is_data_stop(*self.data, *ns[t][k].to_stop) && (ns[t][k].variant is StopOnTrip
                                        ==> is_data_stop(*self.data, from_stop_of(ns[t][k].variant)->0)) by {
                                        assert(ns[t][k] == os[t][k]);
                                    }
                                    let q = self.queue@;
                                    assert forall|i: int| 0 <= i < q.len() implies item_ok(
                                        #[trigger] q[i],
                                        *self.data,
                                        self.stops@,
                                        self.enqueued_trips@,
                                        self.slow(),
                                    ) by {
                                        assert(item_ok(q[i], *self.data, self.stops@, self.enqueued_trips@, old(self).slow()));
                                    }
                                }
                                let mut to_emit = self.filter_slow_trip(slow_trip);
                                proof {
                                    let items = slow_trip@;
                                    let os = old(self).slow();
                                    let data = *self.data;
                                    assert forall|k: int| 0 <= k < items.len() implies self.period@.0 <= (
                                    #[trigger] items[k]).arrival_time@ < self.period@.1 && is_data_stop(data, *items[k].to_stop)
                                        && (trip_of(items[k].variant) is Some ==> data.trip_map().contains_key(
                                        trip_of(items[k].variant)->0,
                                    )) by {
                                        assert(items[k] == os[trip_id][k]);
                                    }
                                    if exists|b: int| is_boarding(items, self.stops@, b) && b > 0 {
                                        let b = choose|b: int| is_boarding(items, self.stops@, b) && b > 0;
                                        assert(items[b] == os[trip_id][b]);
                                        assert(items[b].variant is StopOnTrip);
                                        assert forall|k: int| 0 <= k < to_emit@.len() implies self.period@.0 <= (
                                        #[trigger] to_emit@[k]).arrival_time@ < self.period@.1 && is_data_stop(
                                            data,
                                            *to_emit@[k].to_stop,
                                        ) && (trip_of(to_emit@[k].variant) is Some ==> data.trip_map().contains_key(
                                            trip_of(to_emit@[k].variant)->0,
                                        )) by {
                                            if k > 0 {
                                                assert(to_emit@[k] == items[b + k - 1]);
                                            }
                                        }
                                    }
                                }
                                to_emit.push(item);
                                to_emit
                            },
                            None => {
                                proof {
                                    assert(self.slow() =~= old(self).slow());
                                }
                                let mut v = Vec::new();
                                v.push(item);
                                v
                            },
                        }
                    }
                },
                QueueItemVariant::Connection { .. } => {
                    proof {
                        assert(old(self).stops@.contains_key(item.to_stop.stop_id));
                    }
                    Vec::new()
                },
                QueueItemVariant::Transfer { from_stop, departure_time } => {
                    let ghost mid = *self;
                    proof {
                        assert(mid.departing_refs(item) == old(self).departing_refs(item));
                        assert(forall|t: TripId| mid.searched_trip(t) == old(self).searched_trip(t));
                    }
                    let extended = self.enqueue_connections_and_trips(&item, from_stop, departure_time);
                    proof {
                        let q = self.queue@;
                        assert forall|k: int| mid.queue@.len() <= k < q.len() implies self.enqueued_trips@.contains(
                            trip_of((#[trigger] q[k]).variant)->0,
                        ) by {
                            assert(item_ok(q[k], *self.data, self.stops@, self.enqueued_trips@, self.slow()));
                        }
                    }
                    if !extended || from_stop.station_id() == item.to_stop.station_id() {
                        Vec::new()
                    } else {
                        let mut v = Vec::new();
                        v.push(item);
                        v
                    }
                },
                QueueItemVariant::OriginStation => {
                    let ghost n = self.queue@.len() as int;
                    self.enqueue_immediate_transfers_to_children_of(item.to_stop, item.arrival_time);
                    let ghost m = self.queue@.len() as int;
                    let ghost children = self.queue@.skip(n);
                    self.enqueue_transfers_from_station(item.to_stop, item.arrival_time);
                    proof {
                        assert(self.queue@.subrange(n, m) =~= children);
                    }
                    let mut v = Vec::new();
                    v.push(item);
                    v
                },
            }
        } else {
            match item.variant {
                QueueItemVariant::StopOnTrip { trip_id, .. } => {
                    proof {
                        let q = self.queue@;
                        assert forall|i: int| 0 <= i < q.len() implies !((#[trigger] q[i]).variant is Connection
                            && trip_of(q[i].variant) == Some(trip_id)) by {
                            if q[i].variant is Connection && trip_of(q[i].variant) == Some(trip_id) {
                                assert(outranks(q[i], item));
                            }
                        }
                    }
                    self.push_slow(trip_id, item);
                },
                QueueItemVariant::Connection { trip_id, .. } => {
                    self.push_slow(trip_id, item);
                },
                _ => {},
            }
            Vec::new()
        }
    }

    /// The trips leaving the stop of `item` from its arrival to the end of the period, on the
    /// services searched, each at the stop time where it leaves.
    spec fn departing_refs(&self, item: QueueItem<'r>) -> Seq<crate::departures::TripStopRef> {
        crate::search_data::trips_from_refs(
            self.data.trip_map(),
            self.services@,
            item.to_stop.spec_departures((item.arrival_time@, self.period@.1)),
        )
    }

    /// The trip runs a kind of route that is searched.
    spec fn searched_trip(&self, t: TripId) -> bool {
        self.route_types@.contains(self.data.trip_map()[t].route.route_type)
    }

    /// The queue holds nothing but an origin not reached yet, within the period.
    pub open spec fn lone_origin(&self) -> bool {
        &&& self.queued().len() == 1
        &&& self.queued()[0].variant is OriginStation
        &&& !self.arrivals().contains_key(self.queued()[0].to_stop.stop_id)
        &&& self.period_of().0 <= self.queued()[0].arrival_time@ < self.period_of().1
    }

    /// No queued item arrives within the period any more.
    pub closed spec fn queue_spent(&self) -> bool {
        forall|i: int| 0 <= i < self.queue@.len() ==> (#[trigger] self.queue@[i]).arrival_time@ >= self.period@.1
    }

    /// What one call taking candidate arrivals from the queue does: from this search to `after`,
    /// returning the processed items `v`.
    pub open spec fn raw_step(&self, after: Plotter<'r>, v: Seq<QueueItem<'r>>) -> bool {
        &&& forall|s: StopId, t: StopId|
            #![trigger after.arrivals()[s], self.arrivals()[t]]
            after.arrivals().contains_key(s) && !self.arrivals().contains_key(s) && self.arrivals().contains_key(t)
                ==> self.arrivals()[t]@ <= after.arrivals()[s]@
        &&& after.wf()
        &&& v.len() > 0 ==> after.stops_to_reach() < self.stops_to_reach() || (after.stops_to_reach()
            == self.stops_to_reach() && after.queued().len() < self.queued().len())
        &&& after.stops_to_reach() <= self.stops_to_reach()
        &&& forall|k: int| 0 <= k < v.len() ==> self.period_of().0 <= (#[trigger] v[k]).arrival_time@ < self.period_of().1
        &&& forall|k: int|
            0 <= k < v.len() ==> is_data_stop(self.data_of(), *(#[trigger] v[k]).to_stop) && (trip_of(v[k].variant) is Some
                ==> self.data_of().trip_map().contains_key(trip_of(v[k].variant)->0))
        &&& forall|s: StopId| #[trigger] self.arrivals().contains_key(s) ==> after.arrivals().contains_key(s)
            && after.arrivals()[s] == self.arrivals()[s]
        &&& self.enqueued().subset_of(after.enqueued())
        &&& after.period_of() == self.period_of()
        &&& after.route_type_seq() == self.route_type_seq()
        &&& after.data_of() == self.data_of()
        &&& after.service_set() == self.service_set()
        &&& after.pending() == self.pending()
        &&& after.emitted() == self.emitted()
        &&& v.len() == 0 ==> after.queue_spent()
        &&& forall|k: int| 0 <= k < v.len() ==> route_ok(#[trigger] v[k], self.route_type_seq())
        &&& self.lone_origin() ==> v == seq![self.queued()[0]]
        &&& forall|k: int| 0 <= k < v.len() && (#[trigger] v[k]).variant is OriginStation ==> {
            &&& v == seq![v[k]]
            &&& !self.arrivals().contains_key(v[k].to_stop.stop_id)
            &&& after.arrivals().contains_key(v[k].to_stop.stop_id)
        }
    }

    /// Takes candidate arrivals from the queue, earliest first, and processes those within the
    /// period until one yields items to hand out, which are returned; returns nothing when the
    /// queue runs out or an arrival after the period comes up.
    fn next_block_raw(&mut self) -> (v: Vec<QueueItem<'r>>)
        requires
            old(self).wf(),
        ensures
            old(self).raw_step(*final(self), v@),
    {
        proof {
            self.data.lemma_finite();
        }
        let ghost mut first = true;
        loop
            invariant
                first ==> self.queue@ == old(self).queue@ && self.stops@ == old(self).stops@,
                forall|s: StopId, t: StopId|
                    #![trigger self.stops@[s], old(self).stops@[t]]
                    self.stops@.contains_key(s) && !old(self).stops@.contains_key(s) && old(self).stops@.contains_key(t)
                        ==> old(self).stops@[t]@ <= self.stops@[s]@,
                old(self).lone_origin() ==> first,
                self.wf(),
                self.data.stop_map().dom().finite(),
                pair_le(self.stops_to_reach(), self.queue@.len() as nat, old(self).stops_to_reach(), old(self).queue@.len() as nat),
                forall|s: StopId| #[trigger] old(self).stops@.contains_key(s) ==> self.stops@.contains_key(s)
                    && self.stops@[s] == old(self).stops@[s],
                old(self).enqueued_trips@.subset_of(self.enqueued_trips@),
                self.period == old(self).period,
                self.route_types@ == old(self).route_types@,
                self.data == old(self).data,
                self.services@ == old(self).services@,
                self.catch_up@ == old(self).catch_up@,
                self.emitted_stations@ == old(self).emitted_stations@,
            decreases self.stops_to_reach(), self.queue@.len(),
        {
            let ghost before = *self;
            let ghost was_first = first;
            proof {
                first = false;
            }
            match self.pop_next() {
                None => {
                    return Vec::new();
                },
                Some(item) => {
                    if self.period.contains(item.arrival_time) {
                        proof {
                            let q = before.queue@;
                            let b = choose|b: int|
                                0 <= b < q.len() && q[b] == item && self.queue@ == q.remove(b) && forall|i: int|
                                    0 <= i < q.len() ==> !outranks(#[trigger] q[i], item);
                            lemma_queue_remove(q, b, *self.data, self.stops@, self.enqueued_trips@, self.slow(), self.period@);
                            assert(item_ok(q[b], *self.data, self.stops@, self.enqueued_trips@, self.slow()));
                            assert(self.period@.0 <= q[b].arrival_time@);
                            let r = self.queue@;
                            assert forall|i: int| 0 <= i < r.len() implies !outranks(#[trigger] r[i], item) by {
                                assert(r[i] == q[if i < b { i } else { i + 1 }]);
                            }
                            assert forall|i: int|
                                0 <= i < r.len() && (#[trigger] r[i]).variant is Connection && trip_of(item.variant) is Some
                                implies trip_of(r[i].variant) != trip_of(item.variant) by {
                                let qi = if i < b { i } else { i + 1 };
                                assert(r[i] == q[qi]);
                                if item.variant is StopOnTrip && trip_of(r[i].variant) == trip_of(item.variant) {
                                    assert(outranks(q[qi], q[b]));
                                }
                            }
                        }
                        let ghost mid = *self;
                        let processed = self.process_queue_item(item);
                        proof {
                            let dom = self.data.stop_map().dom();
                            if mid.stops@.contains_key(item.to_stop.stop_id) {
                                assert(self.stops@ == mid.stops@);
                                assert(self.stops_to_reach() == mid.stops_to_reach());
                            } else {
                                assert(self.stops@.dom() == mid.stops@.dom().insert(item.to_stop.stop_id));
                                lemma_reach_one(dom, mid.stops@.dom(), item.to_stop.stop_id);
                            }
                            assert(mid.stops_to_reach() == before.stops_to_reach());
                        }
                        proof {
                            if old(self).lone_origin() {
                                assert(item == before.queue@[0]);
                                assert(processed@ == seq![item]);
                            }
                            let pv = processed@;
                            if !mid.stops@.contains_key(item.to_stop.stop_id) {
                                match item.variant {
                                    QueueItemVariant::StopOnTrip { trip_id, .. } => {
                                        if !mid.emitted_stations@.contains(item.to_stop.spec_station_id())
                                            && mid.slow().contains_key(trip_id) {
                                            let sl = mid.slow()[trip_id];
                                            assert forall|k: int| 0 <= k < sl.len() implies (trip_of(
                                                #[trigger] sl[k].variant,
                                            )) is Some by {
                                                assert(trip_of(mid.slow()[trip_id][k].variant) == Some(trip_id));
                                            }
                                            lemma_boarding_keeps_trips(sl, self.stops@);
                                            assert forall|k: int| 0 <= k < pv.len() implies !((#[trigger] pv[k]).variant is OriginStation) by {
                                                if k < pv.len() - 1 {
                                                    assert(trip_of(slow_from_boarding(sl, self.stops@)[k].variant) is Some);
                                                }
                                            }
                                        }
                                    },
                                    _ => {},
                                }
                            }
                            assert forall|k: int| 0 <= k < pv.len() && (#[trigger] pv[k]).variant is OriginStation implies {
                                &&& pv == seq![pv[k]]
                                &&& !old(self).stops@.contains_key(pv[k].to_stop.stop_id)
                                &&& self.stops@.contains_key(pv[k].to_stop.stop_id)
                            } by {
                                assert(pv == seq![item]);
                            }
                        }
                        if processed.len() > 0 {
                            return processed;
                        }
                    } else {
                        proof {
                            let q = before.queue@;
                            let b = choose|b: int|
                                0 <= b < q.len() && q[b] == item && self.queue@ == q.remove(b) && forall|i: int|
                                    0 <= i < q.len() ==> !outranks(#[trigger] q[i], item);
                            lemma_queue_remove(q, b, *self.data, self.stops@, self.enqueued_trips@, self.slow(), self.period@);
                            assert(self.period@.0 <= q[b].arrival_time@);
                            let r = self.queue@;
                            assert forall|i: int| 0 <= i < r.len() implies (#[trigger] r[i]).arrival_time@ >= self.period@.1 by {
                                let qi = if i < b { i } else { i + 1 };
                                assert(r[i] == q[qi]);
                                lemma_not_outranks(q[qi], item);
                            }
                        }
                        return Vec::new();
                    }
                },
            }
        }
    }

    /// The next items to hand out, in order: for each processed item, first the station it
    /// reaches if that station is new, then the item itself unless it is an origin; nothing
    /// when the search is over.
    fn next_block(&mut self) -> (v: Vec<Item<'r>>)
        requires
            old(self).wf(),
        ensures
            forall|s: StopId, t: StopId|
                #![trigger final(self).stops@[s], old(self).stops@[t]]
                final(self).stops@.contains_key(s) && !old(self).stops@.contains_key(s) && old(self).stops@.contains_key(t)
                    ==> old(self).stops@[t]@ <= final(self).stops@[s]@,
            final(self).wf(),
            v@.len() > 0 ==> final(self).stops_to_reach() < old(self).stops_to_reach() || (final(self).stops_to_reach()
                == old(self).stops_to_reach() && final(self).queue@.len() < old(self).queue@.len()),
            final(self).stops_to_reach() <= old(self).stops_to_reach(),
            forall|s: StopId| #[trigger] old(self).stops@.contains_key(s) ==> final(self).stops@.contains_key(s)
                && final(self).stops@[s] == old(self).stops@[s],
            old(self).emitted_stations@.subset_of(final(self).emitted_stations@),
            forall|k: int| 0 <= k < v@.len() && (#[trigger] station_item_id(v@[k])) is Some ==> !old(
                self,
            ).emitted_stations@.contains(station_item_id(v@[k])->0) && final(self).emitted_stations@.contains(
                station_item_id(v@[k])->0,
            ),
            forall|i: int, j: int|
                0 <= i < j < v@.len() && (#[trigger] station_item_id(v@[i])) is Some ==> station_item_id(v@[i])
                    != #[trigger] station_item_id(v@[j]),
            forall|s: StopId| #[trigger] final(self).emitted_stations@.contains(s) ==> old(self).emitted_stations@.contains(s)
                || exists|k: int| 0 <= k < v@.len() && station_item_id(#[trigger] v@[k]) == Some(s),
            final(self).period@ == old(self).period@,
            final(self).route_types@ == old(self).route_types@,
            final(self).data == old(self).data,
            final(self).services@ == old(self).services@,
            final(self).catch_up@ == old(self).catch_up@,
            old(self).enqueued_trips@.subset_of(final(self).enqueued_trips@),
            final(self).queue_spent() || final(self).stops_to_reach() < old(self).stops_to_reach() || (
            final(self).stops_to_reach() == old(self).stops_to_reach() && final(self).queue@.len() < old(
                self,
            ).queue@.len()),
            forall|k: int| 0 <= k < v@.len() ==> item_route_ok(#[trigger] v@[k], old(self).route_types@),
            forall|k: int| 0 <= k < v@.len() ==> item_in_data(#[trigger] v@[k], *old(self).data),
            old(self).lone_origin() && !old(self).emitted_stations@.contains(old(self).queue@[0].to_stop.spec_station_id())
                ==> v@ == seq![
                Item::Station {
                    stop: old(self).queue@[0].to_stop,
                    earliest_arrival: old(self).queue@[0].arrival_time,
                    name_trunk_length: 0,
                },
            ],
            v@.len() == 0 ==> final(self).queue_spent() || exists|q: QueueItem<'r>| {
                &&& q.variant is OriginStation
                &&& old(self).emitted_stations@.contains(q.to_stop.spec_station_id())
                &&& !old(self).stops@.contains_key(q.to_stop.stop_id)
                &&& final(self).stops@.contains_key(#[trigger] q.to_stop.stop_id)
            },
    {
        let ghost first_origin = old(self).lone_origin() && !old(self).emitted_stations@.contains(
            old(self).queue@[0].to_stop.spec_station_id(),
        );
        let ghost origin_item = old(self).queue@[0];
        let raw = self.next_block_raw();
        let ghost mid = *self;
        proof {
            assert forall|s: StopId| #[trigger] old(self).stops@.contains_key(s) implies mid.stops@.contains_key(s)
                && mid.stops@[s] == old(self).stops@[s] by {
                assert(old(self).arrivals().contains_key(s));
            }
            assert forall|s: StopId, t: StopId|
                #![trigger mid.stops@[s], old(self).stops@[t]]
                mid.stops@.contains_key(s) && !old(self).stops@.contains_key(s) && old(self).stops@.contains_key(t)
                    implies old(self).stops@[t]@ <= mid.stops@[s]@ by {
                assert(mid.arrivals()[s] == mid.stops@[s] && old(self).arrivals()[t] == old(self).stops@[t]);
            }
        }
        let mut out: Vec<Item<'r>> = Vec::new();
        let mut i: usize = 0;
        while i < raw.len()
            invariant
                i <= raw@.len(),
                self.wf(),
                self.queue@ == mid.queue@,
                self.stops@ == mid.stops@,
                self.data == mid.data,
                self.period == mid.period,
                self.route_types@ == mid.route_types@,
                self.services@ == mid.services@,
                self.catch_up@ == mid.catch_up@,
                self.enqueued_trips@ == mid.enqueued_trips@,
                self.slow() == mid.slow(),
                mid.emitted_stations@.subset_of(self.emitted_stations@),
                forall|k: int| 0 <= k < out@.len() && (#[trigger] station_item_id(out@[k])) is Some ==> !mid.emitted_stations@.contains(
                    station_item_id(out@[k])->0,
                ) && self.emitted_stations@.contains(station_item_id(out@[k])->0),
                forall|a: int, b: int|
                    0 <= a < b < out@.len() && (#[trigger] station_item_id(out@[a])) is Some ==> station_item_id(out@[a])
                        != #[trigger] station_item_id(out@[b]),
                forall|s: StopId| #[trigger] self.emitted_stations@.contains(s) ==> mid.emitted_stations@.contains(s)
                    || exists|k: int| 0 <= k < out@.len() && station_item_id(#[trigger] out@[k]) == Some(s),
                out@.len() <= 2 * i,
                forall|k: int| 0 <= k < raw@.len() ==> route_ok(#[trigger] raw@[k], mid.route_types@),
                forall|k: int| 0 <= k < out@.len() ==> item_route_ok(#[trigger] out@[k], mid.route_types@),
                forall|k: int| 0 <= k < out@.len() ==> item_in_data(#[trigger] out@[k], *mid.data),
                forall|k: int| 0 <= k < raw@.len() ==> is_data_stop(*mid.data, *(#[trigger] raw@[k]).to_stop) && (trip_of(
                    raw@[k].variant,
                ) is Some ==> mid.data.trip_map().contains_key(trip_of(raw@[k].variant)->0)),
                first_origin ==> origin_item.variant is OriginStation,
                first_origin ==> raw@ == seq![origin_item] && !mid.emitted_stations@.contains(
                    origin_item.to_stop.spec_station_id(),
                ),
                first_origin && i == 0 ==> out@.len() == 0 && self.emitted_stations@ == mid.emitted_stations@,
                first_origin && i > 0 ==> out@ == seq![
                    Item::Station { stop: origin_item.to_stop, earliest_arrival: origin_item.arrival_time, name_trunk_length: 0 },
                ],
                forall|k: int| 0 <= k < raw@.len() && (#[trigger] raw@[k]).variant is OriginStation ==> {
                    &&& raw@ == seq![raw@[k]]
                    &&& !old(self).stops@.contains_key(raw@[k].to_stop.stop_id)
                    &&& mid.stops@.contains_key(raw@[k].to_stop.stop_id)
                },
                old(self).emitted_stations@ == mid.emitted_stations@,
                i > 0 && out@.len() == 0 ==> raw@[0].variant is OriginStation && mid.emitted_stations@.contains(
                    raw@[0].to_stop.spec_station_id(),
                ),
            decreases raw@.len() - i,
        {
            let item = raw[i];
            let station_id = item.to_stop.station_id();
            let ghost before = out@;
            if !self.emitted_stations.contains(&station_id) {
                self.emitted_stations.insert(station_id);
                let name_trunk_length: usize = if item.variant.is_stop_on_trip() {
                    match item.variant.get_from_stop() {
                        Some(from_stop) => {
                            if starts_with(item.to_stop.short_stop_name.as_str(), from_stop.short_stop_name.as_str()) {
                                from_stop.short_stop_name.as_str().len()
                            } else {
                                0
                            }
                        },
                        None => 0,
                    }
                } else {
                    0
                };
                proof {
                    if first_origin {
                        assert(item == raw@[0]);
                        assert(name_trunk_length == 0);
                    }
                }
                out.push(Item::Station { stop: item.to_stop, earliest_arrival: item.arrival_time, name_trunk_length });
                proof {
                    let o = out@;
                    assert(forall|k: int| 0 <= k < before.len() ==> o[k] == before[k]);
                    assert(station_item_id(o.last()) == Some(station_id));
                    assert forall|a: int, b: int|
                        0 <= a < b < o.len() && (#[trigger] station_item_id(o[a])) is Some implies station_item_id(o[a])
                            != #[trigger] station_item_id(o[b]) by {
                        if b < before.len() {
                            assert(o[a] == before[a] && o[b] == before[b]);
                        } else {
                            assert(o[a] == before[a]);
                        }
                    }
                    assert forall|k: int| 0 <= k < o.len() && (#[trigger] station_item_id(o[k])) is Some implies !mid.emitted_stations@.contains(
                        station_item_id(o[k])->0,
                    ) && self.emitted_stations@.contains(station_item_id(o[k])->0) by {
                        if k < before.len() {
                            assert(o[k] == before[k]);
                        }
                    }
                    assert forall|s: StopId| #[trigger] self.emitted_stations@.contains(s) implies mid.emitted_stations@.contains(s)
                        || exists|k: int| 0 <= k < o.len() && station_item_id(#[trigger] o[k]) == Some(s) by {
                        if s == station_id {
                            assert(station_item_id(o[o.len() - 1]) == Some(s));
                        } else {
                            if !mid.emitted_stations@.contains(s) {
                                let k = choose|k: int| 0 <= k < before.len() && station_item_id(#[trigger] before[k]) == Some(s);
                                assert(o[k] == before[k]);
                            }
                        }
                    }
                }
            }
            let ghost before2 = out@;
            proof {
                if first_origin {
                    assert(item == raw@[0]);
                    assert(out@ =~= seq![
                        Item::Station { stop: origin_item.to_stop, earliest_arrival: origin_item.arrival_time, name_trunk_length: 0 },
                    ]);
                }
            }
            match self.convert_item(item) {
                Some(x) => {
                    out.push(x);
                    proof {
                        let o = out@;
                        assert(route_ok(item, mid.route_types@));
                        assert(item_route_ok(x, mid.route_types@));
                        assert(item_in_data(x, *mid.data));
                        assert(forall|k: int| 0 <= k < before2.len() ==> o[k] == before2[k]);
                        assert(station_item_id(x) is None) by {
                            match item.variant {
                                QueueItemVariant::OriginStation => {},
                                _ => {},
                            }
                        }
                        assert forall|a: int, b: int|
                            0 <= a < b < o.len() && (#[trigger] station_item_id(o[a])) is Some implies station_item_id(o[a])
                                != #[trigger] station_item_id(o[b]) by {
                            assert(o[a] == before2[a]);
                            if b < before2.len() {
                                assert(o[b] == before2[b]);
                            }
                        }
                        assert forall|k: int| 0 <= k < o.len() && (#[trigger] station_item_id(o[k])) is Some implies !mid.emitted_stations@.contains(
                            station_item_id(o[k])->0,
                        ) && self.emitted_stations@.contains(station_item_id(o[k])->0) by {
                            assert(o[k] == before2[k]);
                        }
                        assert forall|s: StopId| #[trigger] self.emitted_stations@.contains(s) implies mid.emitted_stations@.contains(s)
                            || exists|k: int| 0 <= k < o.len() && station_item_id(#[trigger] o[k]) == Some(s) by {
                            if !mid.emitted_stations@.contains(s) {
                                let k = choose|k: int| 0 <= k < before2.len() && station_item_id(#[trigger] before2[k]) == Some(s);
                                assert(o[k] == before2[k]);
                            }
                        }
                    }
                },
                None => {},
            }
            i = i + 1;
        }
        proof {
            assert(self.queue_spent() == mid.queue_spent());
            assert(self.stops_to_reach() == mid.stops_to_reach());
            if out@.len() == 0 && raw@.len() > 0 {
                let q = raw@[0];
                assert(self.stops@.contains_key(q.to_stop.stop_id));
            }
        }
        out
    }

    /// The search takes stops earliest first: no arrival waiting in the queue is earlier than
    /// an arrival the search has recorded, and, by `next`, every stop reached in a call is
    /// reached no earlier than the stops reached before it.
    pub proof fn law_recorded_before_queued(&self)
        requires
            self.wf(),
        ensures
            forall|s: StopId, k: int|
                #![trigger self.arrivals()[s], self.queued()[k]]
                self.arrivals().contains_key(s) && 0 <= k < self.queued().len() ==> self.arrivals()[s]@
                    <= self.queued()[k].arrival_time@,
    {
        assert forall|s: StopId, k: int|
            #![trigger self.arrivals()[s], self.queued()[k]]
            self.arrivals().contains_key(s) && 0 <= k < self.queued().len() implies self.arrivals()[s]@
                <= self.queued()[k].arrival_time@ by {
            assert(item_ok(self.queue@[k], *self.data, self.stops@, self.enqueued_trips@, self.slow()));
        }
    }

    /// What one call of `next` does: from this search to `after`, handing out `r`.
    pub open spec fn hands_out(&self, after: Plotter<'r>, r: Option<Item<'r>>) -> bool {
        &&& after.wf()
        &&& self.pending().len() > 0 ==> {
            &&& r == Some(self.pending()[0])
            &&& after.pending() == self.pending().drop_first()
            &&& after.queued() == self.queued()
            &&& after.arrivals() == self.arrivals()
            &&& after.emitted() == self.emitted()
        }
        &&& r is Some ==> after.stops_to_reach() < self.stops_to_reach() || (after.stops_to_reach()
            == self.stops_to_reach() && (after.queued().len() < self.queued().len() || (after.queued().len()
            == self.queued().len() && after.pending().len() < self.pending().len())))
        &&& after.stops_to_reach() <= self.stops_to_reach()
        &&& forall|s: StopId, t: StopId|
            #![trigger after.arrivals()[s], self.arrivals()[t]]
            after.arrivals().contains_key(s) && !self.arrivals().contains_key(s) && self.arrivals().contains_key(t)
                ==> self.arrivals()[t]@ <= after.arrivals()[s]@
        &&& forall|s: StopId| #[trigger] self.arrivals().contains_key(s) ==> after.arrivals().contains_key(s)
            && after.arrivals()[s] == self.arrivals()[s]
        &&& self.emitted().subset_of(after.emitted())
        &&& r matches Some(x) ==> (station_item_id(x) is Some ==> {
            &&& after.emitted().contains(station_item_id(x)->0)
            &&& forall|k: int| 0 <= k < after.pending().len() ==> station_item_id(#[trigger] after.pending()[k])
                != station_item_id(x)
            &&& (self.pending().len() > 0 || !self.emitted().contains(station_item_id(x)->0))
        })
        &&& forall|k: int| 0 <= k < after.pending().len() && (#[trigger] station_item_id(after.pending()[k])) is Some
            ==> after.emitted().contains(station_item_id(after.pending()[k])->0)
        &&& after.period_of() == self.period_of()
        &&& after.data_of() == self.data_of()
        &&& after.route_type_seq() == self.route_type_seq()
        &&& after.service_set() == self.service_set()
        &&& r matches Some(x) ==> item_route_ok(x, self.route_type_seq())
        &&& r matches Some(x) ==> item_in_data(x, self.data_of())
        &&& self.pending().len() == 0 ==> forall|k: int|
            0 <= k < after.pending().len() && (#[trigger] station_item_id(after.pending()[k])) is Some
                ==> !self.emitted().contains(station_item_id(after.pending()[k])->0)
        &&& self.pending().len() == 0 && self.lone_origin() && !self.emitted().contains(
            self.queued()[0].to_stop.spec_station_id(),
        ) ==> r == Some(
            Item::Station {
                stop: self.queued()[0].to_stop,
                earliest_arrival: self.queued()[0].arrival_time,
                name_trunk_length: 0,
            },
        )
        &&& self.pending().len() == 0 && r is None ==> after.queue_spent() || exists|q: QueueItem<'r>|
            {
                &&& q.variant is OriginStation
                &&& self.emitted().contains(q.to_stop.spec_station_id())
                &&& !self.arrivals().contains_key(q.to_stop.stop_id)
                &&& after.arrivals().contains_key(#[trigger] q.to_stop.stop_id)
            }
    }

    /// The next item of the search, or `None` when the search is over: when nothing queued
    /// arrives within the period any more, or when what came up was only an origin at a station
    /// shown already. Items found together wait in `pending` and come first; after a single
    /// origin the first item is its station.
    pub fn next(&mut self) -> (r: Option<Item<'r>>)
        requires
            old(self).wf(),
        ensures
            old(self).hands_out(*final(self), r),
    {
        if self.catch_up.len() > 0 {
            let r = self.catch_up.pop_front();
            proof {
                assert(self.catch_up@ =~= old(self).catch_up@.drop_first());
                let p = self.catch_up@;
                let op = old(self).catch_up@;
                assert forall|i: int, j: int|
                    0 <= i < j < p.len() && (#[trigger] station_item_id(p[i])) is Some implies station_item_id(p[i])
                        != #[trigger] station_item_id(p[j]) by {
                    assert(p[i] == op[i + 1] && p[j] == op[j + 1]);
                }
                assert forall|k: int| 0 <= k < p.len() && (#[trigger] station_item_id(p[k])) is Some implies self.emitted_stations@.contains(
                    station_item_id(p[k])->0,
                ) by {
                    assert(p[k] == op[k + 1]);
                }
                if station_item_id(op[0]) is Some {
                    assert forall|k: int| 0 <= k < p.len() implies station_item_id(#[trigger] p[k]) != station_item_id(op[0]) by {
                        assert(p[k] == op[k + 1]);
                    }
                }
            }
            return r;
        }
        let block = self.next_block();
        if block.len() == 0 {
            return None;
        }
        let mut i: usize = 1;
        let mut rest: VecDeque<Item<'r>> = VecDeque::new();
        proof {
            assert(rest@ =~= block@.subrange(1, 1));
        }
        while i < block.len()
            invariant
                1 <= i <= block@.len(),
                rest@ == block@.subrange(1, i as int),
            decreases block@.len() - i,
        {
            rest.push_back(block[i]);
            i = i + 1;
            assert(rest@ =~= block@.subrange(1, i as int));
        }
        self.catch_up = rest;
        proof {
            let p = self.catch_up@;
            assert(p =~= block@.skip(1));
            assert forall|a: int, b: int|
                0 <= a < b < p.len() && (#[trigger] station_item_id(p[a])) is Some implies station_item_id(p[a])
                    != #[trigger] station_item_id(p[b]) by {
                assert(p[a] == block@[a + 1] && p[b] == block@[b + 1]);
            }
            assert forall|k: int| 0 <= k < p.len() && (#[trigger] station_item_id(p[k])) is Some implies self.emitted_stations@.contains(
                station_item_id(p[k])->0,
            ) by {
                assert(p[k] == block@[k + 1]);
            }
            if station_item_id(block@[0]) is Some {
                assert forall|k: int| 0 <= k < p.len() implies station_item_id(#[trigger] p[k]) != station_item_id(block@[0]) by {
                    assert(p[k] == block@[k + 1]);
                }
            }
        }
        Some(block[0])
    }

    /// Runs the whole search and keeps, of the data, only the stops and trips it reaches: the
    /// stop of each item found, its parent station, and the trip of each item on a trip.
    pub fn filtered_data(self) -> (d: GTFSData)
        requires
            self.wf(),
        ensures
            d.wf(),
            d.day_services() == self.data_of().day_services(),
            d.start_date() == self.data_of().start_date(),
            forall|t: TripId| #[trigger] d.trip_map().contains_key(t) ==> self.data_of().trip_map().contains_key(t)
                && d.trip_map()[t].same_as(&self.data_of().trip_map()[t]),
            forall|s: StopId| #[trigger] d.stop_map().contains_key(s) ==> self.data_of().stop_map().contains_key(s)
                && d.stop_map()[s].same_as(&self.data_of().stop_map()[s]),
            self.lone_origin() ==> d.stop_map().contains_key(self.queued()[0].to_stop.stop_id),
            exists|states: Seq<Plotter<'r>>, blocks: Seq<Seq<QueueItem<'r>>>|
                {
                    &&& #[trigger] processed_blocks(states, blocks)
                    &&& states[0] == self
                    &&& exists|end: Plotter<'r>| #[trigger] states.last().raw_step(end, Seq::empty())
                    &&& d.stop_map().dom() == blocks_stops(blocks, self.data_of())
                    &&& d.trip_map().dom() == blocks_trips(blocks)
                },
    {
        let mut search = self;
        search.run_filter()
    }

    /// The search run to the end, keeping what it reaches of the data.
    fn run_filter(&mut self) -> (d: GTFSData)
        requires
            old(self).wf(),
        ensures
            d.wf(),
            d.day_services() == old(self).data_of().day_services(),
            d.start_date() == old(self).data_of().start_date(),
            forall|t: TripId| #[trigger] d.trip_map().contains_key(t) ==> old(self).data_of().trip_map().contains_key(t)
                && d.trip_map()[t].same_as(&old(self).data_of().trip_map()[t]),
            forall|s: StopId| #[trigger] d.stop_map().contains_key(s) ==> old(self).data_of().stop_map().contains_key(s)
                && d.stop_map()[s].same_as(&old(self).data_of().stop_map()[s]),
            old(self).lone_origin() ==> d.stop_map().contains_key(old(self).queued()[0].to_stop.stop_id),
            exists|states: Seq<Plotter<'r>>, blocks: Seq<Seq<QueueItem<'r>>>|
                {
                    &&& #[trigger] processed_blocks(states, blocks)
                    &&& states[0] == *old(self)
                    &&& exists|end: Plotter<'r>| #[trigger] states.last().raw_step(end, Seq::empty())
                    &&& d.stop_map().dom() == blocks_stops(blocks, old(self).data_of())
                    &&& d.trip_map().dom() == blocks_trips(blocks)
                },
    {
        let data = self.data;
        let mut builder = data.build_from();
        let ghost lone = old(self).lone_origin();
        let ghost origin_item = old(self).queued()[0];
        let ghost mut first = true;
        let ghost mut states: Seq<Plotter<'r>> = seq![*self];
        let ghost mut blocks: Seq<Seq<QueueItem<'r>>> = Seq::empty();
        let ghost mut end: Plotter<'r> = *self;
        proof {
            assert(builder.new_data().stop_map().dom() =~= blocks_stops(blocks, *data));
            assert(builder.new_data().trip_map().dom() =~= blocks_trips(blocks));
        }
        loop
            invariant_except_break
                states.last() == *self,
            invariant
                processed_blocks(states, blocks),
                states[0] == *old(self),
                builder.new_data().stop_map().dom() == blocks_stops(blocks, *data),
                builder.new_data().trip_map().dom() == blocks_trips(blocks),
                lone ==> origin_item == old(self).queued()[0],
                lone && first ==> self.lone_origin() && self.queued()[0] == origin_item,
                lone && !first ==> builder.new_data().stop_map().contains_key(origin_item.to_stop.stop_id),
                self.wf(),
                self.data == data,
                builder.wf(),
                builder.existing() == data,
                builder.new_data().day_services() == data.day_services(),
                builder.new_data().start_date() == data.start_date(),
                forall|s: StopId| #[trigger] builder.new_data().stop_map().contains_key(s) ==> data.stop_map().contains_key(s)
                    && builder.new_data().stop_map()[s].same_as(&data.stop_map()[s]),
            ensures
                lone ==> builder.new_data().stop_map().contains_key(origin_item.to_stop.stop_id),
                states.last().raw_step(end, Seq::empty()),
            decreases self.stops_to_reach(), self.queue@.len(),
        {
            let ghost was_first = first;
            let ghost before = *self;
            let items = self.next_block_raw();
            proof {
                first = false;
            }
            if items.len() == 0 {
                proof {
                    end = *self;
                    assert(items@ =~= Seq::<QueueItem<'r>>::empty());
                }
                break;
            }
            let ghost start_stops = builder.new_data().stop_map().dom();
            let ghost start_trips = builder.new_data().trip_map().dom();
            proof {
                assert(items@.take(0) =~= Seq::<QueueItem<'r>>::empty());
                assert(start_stops =~= start_stops.union(items_stops(items@.take(0), *data)));
                assert(start_trips =~= start_trips.union(items_trips(items@.take(0))));
            }
            let mut k: usize = 0;
            while k < items.len()
                invariant
                    builder.new_data().stop_map().dom() == start_stops.union(items_stops(items@.take(k as int), *data)),
                    builder.new_data().trip_map().dom() == start_trips.union(items_trips(items@.take(k as int))),
                    lone && was_first ==> items@ == seq![origin_item],
                    lone && (!was_first || k > 0) ==> builder.new_data().stop_map().contains_key(
                        origin_item.to_stop.stop_id,
                    ),
                    k <= items@.len(),
                    data.wf(),
                    forall|j: int| 0 <= j < items@.len() ==> is_data_stop(*data, *(#[trigger] items@[j]).to_stop) && (trip_of(
                        items@[j].variant,
                    ) is Some ==> data.trip_map().contains_key(trip_of(items@[j].variant)->0)),
                    builder.wf(),
                    builder.existing() == data,
                    builder.new_data().day_services() == data.day_services(),
                    builder.new_data().start_date() == data.start_date(),
                    forall|s: StopId| #[trigger] builder.new_data().stop_map().contains_key(s) ==> data.stop_map().contains_key(s)
                        && builder.new_data().stop_map()[s].same_as(&data.stop_map()[s]),
                decreases items@.len() - k,
            {
                let item = items[k];
                keep_stop_in(data, &mut builder, item.to_stop);
                match item.to_stop.parent_station() {
                    Some(parent_id) => match data.get_stop(&parent_id) {
                        Some(parent) => {
                            proof {
                                assert(data.stop_map()[parent.stop_id] == *parent);
                            }
                            keep_stop_in(data, &mut builder, parent);
                        },
                        None => {},
                    },
                    None => {},
                }
                match item.variant.get_trip_id() {
                    Some(trip_id) => {
                        builder.keep_trip(trip_id);
                    },
                    None => {},
                }
                proof {
                    let t = items@.take(k + 1);
                    assert(t.drop_last() =~= items@.take(k as int));
                    assert(t.last() == item);
                    assert(builder.new_data().stop_map().dom() =~= start_stops.union(items_stops(t, *data)));
                    assert(builder.new_data().trip_map().dom() =~= start_trips.union(items_trips(t)));
                }
                k = k + 1;
            }
            proof {
                assert(items@.take(items@.len() as int) =~= items@);
                let nb = blocks.push(items@);
                assert(nb.drop_last() =~= blocks);
                assert(builder.new_data().stop_map().dom() =~= blocks_stops(nb, *data));
                assert(builder.new_data().trip_map().dom() =~= blocks_trips(nb));
                let ns = states.push(*self);
                assert forall|i: int| #![trigger nb[i]] 0 <= i < nb.len() implies nb[i].len() > 0 && ns[i].raw_step(
                    ns[i + 1],
                    nb[i],
                ) by {
                    if i < blocks.len() {
                        assert(nb[i] == blocks[i]);
                        assert(ns[i] == states[i] && ns[i + 1] == states[i + 1]);
                    } else {
                        assert(ns[i] == before);
                    }
                }
                blocks = nb;
                states = ns;
            }
        }
        let d = builder.build();
        proof {
            assert(processed_blocks(states, blocks));
        }
        d
    }


    /// Takes the first candidate arrival from the queue: one that no other outranks.
    fn pop_next(&mut self) -> (r: Option<QueueItem<'r>>)
        ensures
            match r {
                None => old(self).queue@.len() == 0 && final(self).queue@ == old(self).queue@,
                Some(q) => exists|b: int|
                    0 <= b < old(self).queue@.len() && old(self).queue@[b] == q && final(self).queue@ == old(
                        self,
                    ).queue@.remove(b) && forall|i: int|
                        0 <= i < old(self).queue@.len() ==> !outranks(#[trigger] old(self).queue@[i], q),
            },
            final(self).period == old(self).period,
            final(self).route_types == old(self).route_types,
            final(self).data == old(self).data,
            final(self).services == old(self).services,
            final(self).catch_up == old(self).catch_up,
            final(self).enqueued_trips == old(self).enqueued_trips,
            final(self).slow_trips == old(self).slow_trips,
            final(self).stops == old(self).stops,
            final(self).emitted_stations == old(self).emitted_stations,
    {
        if self.queue.len() == 0 {
            return None;
        }
        let mut best: usize = 0;
        let mut i: usize = 1;
        proof {
            lemma_outranks_irreflexive(self.queue@[0]);
        }
        while i < self.queue.len()
            invariant
                0 <= best < i <= self.queue@.len(),
                forall|j: int| 0 <= j < i ==> !outranks(#[trigger] self.queue@[j], self.queue@[best as int]),
            decreases self.queue@.len() - i,
        {
            if outranks_exec(&self.queue[i], &self.queue[best]) {
                proof {
                    let qi = self.queue@[i as int];
                    let qb = self.queue@[best as int];
                    assert forall|j: int| 0 <= j < i + 1 implies !outranks(#[trigger] self.queue@[j], qi) by {
                        if j == i {
                            lemma_outranks_irreflexive(qi);
                        } else if outranks(self.queue@[j], qi) {
                            lemma_outranks_transitive(self.queue@[j], qi, qb);
                        }
                    }
                }
                best = i;
            }
            i = i + 1;
        }
        let q = self.queue.remove(best);
        Some(q)
    }
}
/// Whether the stops of the trip are in order: each is arrived at no later than it is left,
/// and left no later than the next is arrived at.
fn trip_in_order(stop_times: &Vec<StopTime>) -> (b: bool)
    ensures
        b == ((forall|i: int, j: int|
            #![trigger stop_times@[i], stop_times@[j]]
            0 <= i < j < stop_times@.len() ==> stop_times@[i].departure_time@ <= stop_times@[j].arrival_time@) && (forall|i: int|
            #![trigger stop_times@[i]]
            0 <= i < stop_times@.len() ==> stop_times@[i].arrival_time@ <= stop_times@[i].departure_time@)),
{
    let s = Ghost(stop_times@);
    let mut k: usize = 0;
    while k < stop_times.len()
        invariant
            k <= s@.len(),
            s@ == stop_times@,
            forall|i: int| #![trigger s@[i]] 0 <= i < k ==> s@[i].arrival_time@ <= s@[i].departure_time@,
            forall|i: int, j: int| #![trigger s@[i], s@[j]] 0 <= i < j < k ==> s@[i].departure_time@ <= s@[j].arrival_time@,
        decreases s@.len() - k,
    {
        let st = stop_times[k];
        if st.arrival_time.seconds_since_midnight() > st.departure_time.seconds_since_midnight() {
            return false;
        }
        if k > 0 {
            let prev = stop_times[k - 1];
            if prev.departure_time.seconds_since_midnight() > st.arrival_time.seconds_since_midnight() {
                return false;
            }
            proof {
                assert forall|i: int| #![trigger s@[i]] 0 <= i < k implies s@[i].departure_time@ <= s@[k as int].arrival_time@ by {
                    lemma_chain(s@, i, k as int - 1);
                }
            }
        }
        k = k + 1;
    }
    true
}

/// Along stops in order, a stop is left no later than a later one is arrived at.
proof fn lemma_chain(s: Seq<StopTime>, i: int, j: int)
    requires
        0 <= i <= j < s.len(),
        forall|a: int, b: int| #![trigger s[a], s[b]] 0 <= a < b <= j ==> s[a].departure_time@ <= s[b].arrival_time@,
        forall|a: int| #![trigger s[a]] 0 <= a <= j ==> s[a].arrival_time@ <= s[a].departure_time@,
    ensures
        s[i].departure_time@ <= s[j].departure_time@,
{
    if i < j {
        assert(s[i].departure_time@ <= s[j].arrival_time@);
    }
}

/// Whether the data can be searched over a period ending at `end`: every trip's stops are in
/// order and every transfer time is non-negative and fits after the end.
pub fn searchable_until(data: &GTFSData, end: Time) -> (b: bool)
    requires
        data.wf(),
    ensures
        b == searchable(*data, end@),
{
    let trip_ids = crate::search_data::map_keys(data.trip_table());
    let mut k: usize = 0;
    while k < trip_ids.len()
        invariant
            k <= trip_ids@.len(),
            trip_ids@.to_set() == data.trip_map().dom(),
            forall|i: int| 0 <= i < k ==> trip_ordered_in(*data, #[trigger] trip_ids@[i]),
        decreases trip_ids@.len() - k,
    {
        let id = trip_ids[k];
        assert(trip_ids@.to_set().contains(trip_ids@[k as int]));
        match data.get_trip(&id) {
            Some(trip) => {
                if !trip_in_order(&trip.stop_times) {
                    return false;
                }
            },
            None => {},
        }
        k = k + 1;
    }
    proof {
        assert forall|t: TripId| data.trip_map().contains_key(t) implies trip_ordered_in(*data, t) by {
            assert(trip_ids@.to_set().contains(t));
            let i = choose|i: int| 0 <= i < trip_ids@.len() && trip_ids@[i] == t;
        }
    }
    let stop_ids = crate::search_data::map_keys(data.stop_table());
    let mut k: usize = 0;
    while k < stop_ids.len()
        invariant
            k <= stop_ids@.len(),
            stop_ids@.to_set() == data.stop_map().dom(),
            forall|i: int| 0 <= i < k ==> transfers_fit_at(*data, #[trigger] stop_ids@[i], end@),
        decreases stop_ids@.len() - k,
    {
        let id = stop_ids[k];
        assert(stop_ids@.to_set().contains(stop_ids@[k as int]));
        match data.get_stop(&id) {
            Some(stop) => {
                let mut j: usize = 0;
                while j < stop.transfers.len()
                    invariant
                        j <= stop.transfers@.len(),
                        data.stop_map().contains_key(id),
                        *stop == data.stop_map()[id],
                        forall|m: int| 0 <= m < j ==> transfer_fits(#[trigger] stop.transfers@[m], end@),
                    decreases stop.transfers@.len() - j,
                {
                    match stop.transfers[j].min_transfer_time {
                        Some(d) => {
                            let secs: i64 = d.secs() as i64;
                            if secs < 0 || end.seconds_since_midnight() as i64 + secs > u32::MAX as i64 {
                                return false;
                            }
                        },
                        None => {},
                    }
                    j = j + 1;
                }
            },
            None => {},
        }
        k = k + 1;
    }
    proof {
        assert forall|id: StopId| data.stop_map().contains_key(id) implies transfers_fit_at(*data, id, end@) by {
            assert(stop_ids@.to_set().contains(id));
            let i = choose|i: int| 0 <= i < stop_ids@.len() && stop_ids@[i] == id;
        }
    }
    true
}

/// The stops of the trip with the id, if it is one, are in order.
pub open spec fn trip_ordered_in(data: GTFSData, t: TripId) -> bool {
    data.trip_map().contains_key(t) ==> {
        let s = data.trip_map()[t].stop_times@;
        &&& forall|i: int, j: int| #![trigger s[i], s[j]] 0 <= i < j < s.len() ==> s[i].departure_time@ <= s[j].arrival_time@
        &&& forall|i: int| #![trigger s[i]] 0 <= i < s.len() ==> s[i].arrival_time@ <= s[i].departure_time@
    }
}

/// The transfer's time, if it has one, is non-negative and fits after the end.
pub open spec fn transfer_fits(t: Transfer, end: nat) -> bool {
    match t.min_transfer_time {
        Some(d) => 0 <= d@ && end + d@ <= time_max(),
        None => true,
    }
}

/// The transfers of the stop with the id, if it is one, fit after the end.
pub open spec fn transfers_fit_at(data: GTFSData, id: StopId, end: nat) -> bool {
    data.stop_map().contains_key(id) ==> forall|k: int|
        0 <= k < data.stop_map()[id].transfers@.len() ==> transfer_fits(#[trigger] data.stop_map()[id].transfers@[k], end)
}

} // verus!
