//! Keeping a client's copy of the timetable data in step with the searches it makes: the first
//! reply carries all the data needed, later ones only what the client lacks.
use std::collections::{HashMap, HashSet};
use vstd::prelude::*;
use vstd::std_specs::iter::IteratorSpec;

use crate::search_data::{GTFSData, Stop, StopId, Trip, TripId, map_keys};

verus! {

broadcast use vstd::std_specs::hash::group_hash_axioms;

/// Data for a client: all of it, or an increment, with the session and the number of the
/// update.
pub enum SyncData<D, I> {
    Initial { session_id: u64, update_number: u64, data: D },
    Increment { session_id: u64, update_number: u64, increment: I },
}

impl<D, I> SyncData<D, I> {
    /// The session the data is for.
    pub fn session_id(&self) -> (id: u64)
        ensures
            id == match self {
                SyncData::Initial { session_id, .. } => *session_id,
                SyncData::Increment { session_id, .. } => *session_id,
            },
    {
        match self {
            SyncData::Initial { session_id, .. } => *session_id,
            SyncData::Increment { session_id, .. } => *session_id,
        }
    }
}

/// The stops and trips a client lacks.
pub struct GTFSSyncIncrement {
    pub stops: HashMap<StopId, Stop>,
    pub trips: HashMap<TripId, Trip>,
}

/// A session of a client, which the client makes with an id.
pub trait ClientSession: Sized {
    type Data;
    type Increment;

    /// The id of the session.
    spec fn id_of(&self) -> u64;

    /// The number of updates sent so far.
    spec fn update_count(&self) -> u64;

    /// A session that has sent nothing yet.
    fn new(session_id: u64) -> (s: Self)
        ensures
            s.id_of() == session_id,
            s.update_count() == 0,
    ;

    /// The number of updates sent so far.
    fn update_number(&self) -> (n: u64)
        ensures
            n == self.update_count(),
    ;
}

/// What a client has been sent so far: the trips and stops, and the number of updates.
pub struct GTFSDataSession {
    trips: HashSet<TripId>,
    stops: HashSet<StopId>,
    session_id: u64,
    update_number: u64,
    last_origin: Option<StopId>,
}

impl ClientSession for GTFSDataSession {
    type Data = GTFSData;
    type Increment = GTFSSyncIncrement;

    open spec fn id_of(&self) -> u64 {
        self.session()
    }

    open spec fn update_count(&self) -> u64 {
        self.updates()
    }

    fn new(session_id: u64) -> (s: GTFSDataSession)
        ensures
            s.sent_trips() == Set::<TripId>::empty(),
            s.sent_stops() == Set::<StopId>::empty(),
            s.session() == session_id,
            s.updates() == 0,
            s.last_search() == Option::<StopId>::None,
    {
        GTFSDataSession {
            trips: HashSet::new(),
            stops: HashSet::new(),
            session_id,
            update_number: 0,
            last_origin: None,
        }
    }

    fn update_number(&self) -> (n: u64)
        ensures
            n == self.updates(),
    {
        self.update_number
    }
}

/// `m` maps exactly the ids of `ids` to copies of what `source` maps them to.
pub open spec fn copies_of_stops(m: Map<StopId, Stop>, ids: Set<StopId>, source: Map<StopId, Stop>) -> bool {
    &&& m.dom() == ids
    &&& forall|id: StopId| #[trigger] m.contains_key(id) ==> m[id].same_as(&source[id])
}

/// `m` maps exactly the ids of `ids` to copies of what `source` maps them to.
pub open spec fn copies_of_trips(m: Map<TripId, Trip>, ids: Set<TripId>, source: Map<TripId, Trip>) -> bool {
    &&& m.dom() == ids
    &&& forall|id: TripId| #[trigger] m.contains_key(id) ==> m[id].same_as(&source[id])
}

impl GTFSDataSession {
    /// The trips sent.
    pub closed spec fn sent_trips(&self) -> Set<TripId> {
        self.trips@
    }

    /// The stops sent.
    pub closed spec fn sent_stops(&self) -> Set<StopId> {
        self.stops@
    }

    /// The id of the session.
    pub closed spec fn session(&self) -> u64 {
        self.session_id
    }

    /// The number of updates sent.
    pub closed spec fn updates(&self) -> u64 {
        self.update_number
    }

    /// The origin of the last search recorded.
    pub closed spec fn last_search(&self) -> Option<StopId> {
        self.last_origin
    }

    /// Copies of the stops of `source` with the ids of the stops of `data`.
    fn stops_to_send(data: &GTFSData, data_source: &GTFSData) -> (m: HashMap<StopId, Stop>)
        requires
            data.stop_map().dom().subset_of(data_source.stop_map().dom()),
        ensures
            copies_of_stops(m@, data.stop_map().dom(), data_source.stop_map()),
    {
        let mut m: HashMap<StopId, Stop> = HashMap::new();
        let ids = map_keys(data.stop_table());
        let mut i: usize = 0;
        while i < ids.len()
            invariant
                i <= ids@.len(),
                ids@.to_set() == data.stop_map().dom(),
                data.stop_map().dom().subset_of(data_source.stop_map().dom()),
                m@.dom() == ids@.take(i as int).to_set(),
                forall|k: StopId| #[trigger] m@.contains_key(k) ==> m@[k].same_as(&data_source.stop_map()[k]),
            decreases ids@.len() - i,
        {
            let id = ids[i];
            proof {
                assert(ids@.take(i + 1) =~= ids@.take(i as int).push(id));
                ids@.take(i as int).lemma_push_to_set_commute(id);
                assert(ids@.to_set().contains(id));
            }
            let stop = data_source.get_stop(&id).unwrap().clone();
            m.insert(id, stop);
            i = i + 1;
        }
        assert(ids@.take(i as int) =~= ids@);
        m
    }

    /// Copies of the trips of `source` with the ids `ids`, which it has.
    fn trips_to_send(ids: &Vec<TripId>, data_source: &GTFSData) -> (m: HashMap<TripId, Trip>)
        requires
            forall|i: int| 0 <= i < ids@.len() ==> data_source.trip_map().contains_key(#[trigger] ids@[i]),
        ensures
            copies_of_trips(m@, ids@.to_set(), data_source.trip_map()),
    {
        let mut m: HashMap<TripId, Trip> = HashMap::new();
        let mut i: usize = 0;
        while i < ids.len()
            invariant
                i <= ids@.len(),
                forall|j: int| 0 <= j < ids@.len() ==> data_source.trip_map().contains_key(#[trigger] ids@[j]),
                m@.dom() == ids@.take(i as int).to_set(),
                forall|k: TripId| #[trigger] m@.contains_key(k) ==> m@[k].same_as(&data_source.trip_map()[k]),
            decreases ids@.len() - i,
        {
            let trip = data_source.get_trip(&ids[i]).unwrap().clone();
            m.insert(ids[i], trip);
            proof {
                assert(ids@.take(i + 1) =~= ids@.take(i as int).push(ids@[i as int]));
                ids@.take(i as int).lemma_push_to_set_commute(ids@[i as int]);
            }
            i = i + 1;
        }
        assert(ids@.take(i as int) =~= ids@);
        m
    }

    /// The ids of the trips of `data`.
    fn trip_ids(data: &GTFSData) -> (v: Vec<TripId>)
        ensures
            v@.to_set() == data.trip_map().dom(),
    {
        let mut v: Vec<TripId> = Vec::new();
        let trips = data.trip_table();
        for id in it: trips.keys()
            invariant
                it.seq() == vstd::std_specs::hash::spec_keys_iter(trips).remaining(),
                v@ == it.seq().take(it.index()).map_values(|k: &TripId| *k),
            ensures
                v@ == vstd::std_specs::hash::spec_keys_iter(trips).remaining().map_values(|k: &TripId| *k),
        {
            v.push(*id);
            proof {
                assert(it.seq().take(it.index() + 1).map_values(|k: &TripId| *k) =~= v@);
            }
        }
        proof {
            vstd::std_specs::hash::axiom_spec_keys_iter(trips);
            assert(v@ =~= vstd::std_specs::hash::spec_keys_iter(trips).remaining().unref());
        }
        v
    }

    /// Records the data of a search for the client and gives what to send it: the first time,
    /// all of it, with the trips and the stops of `data` copied from `data_source`; later, the
    /// trips not sent before and the stops of `data`.
    pub fn add_data(&mut self, data: &GTFSData, data_source: &GTFSData) -> (r: SyncData<GTFSData, GTFSSyncIncrement>)
        requires
            data.stop_map().dom().subset_of(data_source.stop_map().dom()),
            data.trip_map().dom().subset_of(data_source.trip_map().dom()),
            old(self).updates() < u64::MAX,
        ensures
            final(self).session() == old(self).session(),
            final(self).last_search() == old(self).last_search(),
            final(self).updates() == old(self).updates() + 1,
            old(self).updates() == 0 ==> {
                &&& final(self).sent_trips() == data.trip_map().dom()
                &&& final(self).sent_stops() == data.stop_map().dom()
                &&& r matches SyncData::Initial { session_id, update_number, data: d } && session_id == old(
                    self,
                ).session() && update_number == 1 && d.day_services() == data.day_services() && d.start_date()
                    == data.start_date() && copies_of_stops(d.stop_map(), data.stop_map().dom(), data_source.stop_map())
                    && copies_of_trips(d.trip_map(), data.trip_map().dom(), data_source.trip_map())
            },
            old(self).updates() != 0 ==> {
                &&& final(self).sent_trips() == old(self).sent_trips() + data.trip_map().dom()
                &&& final(self).sent_stops() == old(self).sent_stops() + data.stop_map().dom()
                &&& r matches SyncData::Increment { session_id, update_number, increment } && session_id == old(
                    self,
                ).session() && update_number == final(self).updates() && copies_of_stops(
                    increment.stops@,
                    data.stop_map().dom(),
                    data_source.stop_map(),
                ) && copies_of_trips(
                    increment.trips@,
                    data.trip_map().dom().difference(old(self).sent_trips()),
                    data_source.trip_map(),
                )
            },
    {
        let to_send_stops = Self::stops_to_send(data, data_source);
        let ids = Self::trip_ids(data);
        if self.update_number == 0 {
            let mut trips: HashSet<TripId> = HashSet::new();
            let mut i: usize = 0;
            while i < ids.len()
                invariant
                    i <= ids@.len(),
                    trips@ == ids@.take(i as int).to_set(),
                decreases ids@.len() - i,
            {
                trips.insert(ids[i]);
                proof {
                    assert(ids@.take(i + 1) =~= ids@.take(i as int).push(ids@[i as int]));
                    ids@.take(i as int).lemma_push_to_set_commute(ids@[i as int]);
                }
                i = i + 1;
            }
            assert(ids@.take(i as int) =~= ids@);
            let stops = Self::key_set(&to_send_stops);
            self.trips = trips;
            self.stops = stops;
            self.update_number = 1;
            proof {
                assert forall|i: int| 0 <= i < ids@.len() implies data_source.trip_map().contains_key(#[trigger] ids@[i]) by {
                    assert(ids@.to_set().contains(ids@[i]));
                }
            }
            let sent_trips = Self::trips_to_send(&ids, data_source);
            let d = GTFSData::from_parts(sent_trips, to_send_stops, data.copy_services_by_day(), data.copy_start_date());
            SyncData::Initial { session_id: self.session_id, data: d, update_number: 1 }
        } else {
            let mut new_trips: Vec<TripId> = Vec::new();
            let mut i: usize = 0;
            let ghost sent = self.trips@;
            while i < ids.len()
                invariant
                    i <= ids@.len(),
                    sent == old(self).trips@,
                    self.trips@ == sent + ids@.take(i as int).to_set(),
                    new_trips@.to_set() == ids@.take(i as int).to_set().difference(sent),
                    forall|j: int| 0 <= j < new_trips@.len() ==> ids@.to_set().contains(#[trigger] new_trips@[j]),
                    self.session_id == old(self).session_id,
                    self.update_number == old(self).update_number,
                    self.last_origin == old(self).last_origin,
                    self.stops@ == old(self).stops@,
                decreases ids@.len() - i,
            {
                let id = ids[i];
                proof {
                    assert(ids@.take(i + 1) =~= ids@.take(i as int).push(id));
                    ids@.take(i as int).lemma_push_to_set_commute(id);
                    assert(ids@.to_set().contains(id));
                }
                if !self.trips.contains(&id) {
                    proof {
                        new_trips@.lemma_push_to_set_commute(id);
                    }
                    new_trips.push(id);
                    assert(new_trips@.to_set() =~= ids@.take(i + 1).to_set().difference(sent));
                } else {
                    assert(new_trips@.to_set() =~= ids@.take(i + 1).to_set().difference(sent));
                }
                self.trips.insert(id);
                i = i + 1;
                assert(self.trips@ =~= sent + ids@.take(i as int).to_set());
            }
            assert(ids@.take(i as int) =~= ids@);
            let mut k: usize = 0;
            let ghost before = self.stops@;
            let ghost trips_now = self.trips@;
            let keys = map_keys(&to_send_stops);
            while k < keys.len()
                invariant
                    k <= keys@.len(),
                    self.trips@ == trips_now,
                    self.stops@ == before + keys@.take(k as int).to_set(),
                    self.session_id == old(self).session_id,
                    self.update_number == old(self).update_number,
                    self.last_origin == old(self).last_origin,
                decreases keys@.len() - k,
            {
                self.stops.insert(keys[k]);
                proof {
                    assert(keys@.take(k + 1) =~= keys@.take(k as int).push(keys@[k as int]));
                    keys@.take(k as int).lemma_push_to_set_commute(keys@[k as int]);
                }
                k = k + 1;
                assert(self.stops@ =~= before + keys@.take(k as int).to_set());
            }
            assert(keys@.take(k as int) =~= keys@);
            self.update_number = self.update_number + 1;
            proof {
                assert forall|j: int| 0 <= j < new_trips@.len() implies data_source.trip_map().contains_key(
                    #[trigger] new_trips@[j],
                ) by {
                    assert(ids@.to_set().contains(new_trips@[j]));
                }
            }
            let trips = Self::trips_to_send(&new_trips, data_source);
            SyncData::Increment {
                increment: GTFSSyncIncrement { trips, stops: to_send_stops },
                update_number: self.update_number,
                session_id: self.session_id,
            }
        }
    }

    /// The keys of the map, as a set.
    fn key_set(m: &HashMap<StopId, Stop>) -> (s: HashSet<StopId>)
        ensures
            s@ == m@.dom(),
    {
        let keys = map_keys(m);
        let mut s: HashSet<StopId> = HashSet::new();
        let mut i: usize = 0;
        while i < keys.len()
            invariant
                i <= keys@.len(),
                s@ == keys@.take(i as int).to_set(),
            decreases keys@.len() - i,
        {
            s.insert(keys[i]);
            proof {
                assert(keys@.take(i + 1) =~= keys@.take(i as int).push(keys@[i as int]));
                keys@.take(i as int).lemma_push_to_set_commute(keys@[i as int]);
            }
            i = i + 1;
        }
        assert(keys@.take(i as int) =~= keys@);
        s
    }

    /// Records the origin of a search.
    pub fn record_search(&mut self, stop: &Stop)
        ensures
            final(self).last_search() == Some(stop.stop_id),
            final(self).sent_trips() == old(self).sent_trips(),
            final(self).sent_stops() == old(self).sent_stops(),
            final(self).session() == old(self).session(),
            final(self).updates() == old(self).updates(),
    {
        if self.last_origin != Some(stop.stop_id) {
            self.last_origin = Some(stop.stop_id);
        }
    }
}

impl GTFSData {
    /// Adds the stops and trips of an increment, replacing those with the same ids.
    pub fn add_increment(&mut self, increment: GTFSSyncIncrement)
        ensures
            final(self).stop_map() == old(self).stop_map().union_prefer_right(increment.stops@),
            final(self).trip_map() == old(self).trip_map().union_prefer_right(increment.trips@),
            final(self).day_services() == old(self).day_services(),
            final(self).start_date() == old(self).start_date(),
    {
        let GTFSSyncIncrement { stops, trips } = increment;
        self.merge(stops, trips);
    }
}

/// The key a client names its session with: its id, if it has one, and the number of
/// updates it has had.
#[derive(Debug, Clone, Copy)]
pub struct SessionKey {
    pub id: Option<u64>,
    pub count: Option<u64>,
}

/// The sessions of the clients, by id, and the id the next new session gets.
pub struct SessionContainer<S> {
    map: HashMap<u64, S>,
    next_session_id: u64,
}

/// The id after `id`, wrapping around.
pub open spec fn after_id(id: u64) -> u64 {
    if id == u64::MAX {
        0
    } else {
        (id + 1) as u64
    }
}

impl<S: ClientSession> SessionContainer<S> {
    /// The sessions by id.
    pub closed spec fn sessions(&self) -> Map<u64, S> {
        self.map@
    }

    /// The id the next new session gets.
    pub closed spec fn next_id(&self) -> u64 {
        self.next_session_id
    }

    /// No sessions; the first new one gets the id 1000.
    pub fn new() -> (c: SessionContainer<S>)
        ensures
            c.sessions() == Map::<u64, S>::empty(),
            c.next_id() == 1000,
    {
        SessionContainer { map: HashMap::new(), next_session_id: 1000 }
    }

    /// An id for a new session; the next one follows it.
    pub fn new_session_id(&mut self) -> (id: u64)
        ensures
            id == old(self).next_id(),
            final(self).next_id() == after_id(old(self).next_id()),
            final(self).sessions() == old(self).sessions(),
    {
        let id = self.next_session_id;
        self.next_session_id = self.next_session_id.wrapping_add(1);
        id
    }

    /// The session of the client: the one with the key's id, or a new one; a session whose
    /// number of updates differs from the client's is started anew. Returns its id.
    pub fn session_filter(&mut self, key: SessionKey) -> (id: u64)
        ensures
            id == match key.id {
                Some(i) => i,
                None => old(self).next_id(),
            },
            final(self).next_id() == if key.id is None {
                after_id(old(self).next_id())
            } else {
                old(self).next_id()
            },
            final(self).sessions().dom() == old(self).sessions().dom().insert(id),
            forall|k: u64| #[trigger] old(self).sessions().contains_key(k) && k != id ==> final(self).sessions()[k] == old(
                self,
            ).sessions()[k],
            ({
                let count = match key.count {
                    Some(c) => c,
                    None => 0,
                };
                if old(self).sessions().contains_key(id) && old(self).sessions()[id].update_count() == count {
                    final(self).sessions()[id] == old(self).sessions()[id]
                } else {
                    final(self).sessions()[id].id_of() == id && final(self).sessions()[id].update_count() == 0
                }
            }),
    {
        let session_id = match key.id {
            Some(i) => i,
            None => self.new_session_id(),
        };
        let update_number = match key.count {
            Some(c) => c,
            None => 0,
        };
        let keep = match self.map.get(&session_id) {
            Some(session) => session.update_number() == update_number,
            None => false,
        };
        if !keep {
            self.map.insert(session_id, S::new(session_id));
        }
        session_id
    }

    /// Takes the session with the id out, if there is one.
    pub fn take_session(&mut self, id: u64) -> (s: Option<S>)
        ensures
            s == old(self).sessions().get(id),
            final(self).sessions() == old(self).sessions().remove(id),
            final(self).next_id() == old(self).next_id(),
    {
        self.map.remove(&id)
    }

    /// Puts the session back under the id.
    pub fn put_session(&mut self, id: u64, s: S)
        ensures
            final(self).sessions() == old(self).sessions().insert(id, s),
            final(self).next_id() == old(self).next_id(),
    {
        self.map.insert(id, s);
    }
}

} // verus!
