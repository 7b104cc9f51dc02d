//! The client's side of keeping timetable data in step: it asks for data, at most one request
//! at a time, and merges each reply into what it holds. A request wanted while one is under
//! way is remembered and made once the reply is in.
use vstd::prelude::*;

use crate::search_data::GTFSData;
use crate::sync::{GTFSSyncIncrement, SyncData};
use crate::text::{decimal, push_decimal_u64};

verus! {

/// Why a request for data failed.
#[derive(Debug)]
pub enum LoadError {
    /// The request could not be made or answered.
    FetchError(String),
    /// The reply could not be decoded.
    RMPError(String),
}

/// What the client is told: a reply came in, or data is wanted.
pub enum Msg {
    DataFetched(Result<SyncData<GTFSData, GTFSSyncIncrement>, LoadError>),
    FetchData,
}

/// What the client is asked to do in turn.
#[derive(Debug, PartialEq, Eq)]
pub enum Order {
    /// Fetch the data at the url and hand the reply back as `Msg::DataFetched`.
    PerformRequest(String),
    /// Leave the view as it is.
    Skip,
    /// Hand `Msg::FetchData` back.
    SendFetchData,
}

/// Whether a request is under way.
#[derive(Debug, Clone, Copy, PartialEq, Eq, Structural)]
pub enum RequestStatus {
    /// No request is under way.
    Ready,
    /// A request is under way.
    InProgress,
    /// A request is under way and another one is wanted after it.
    Invalidated,
}

/// The data the client holds, if any, with the session and the number of the last update.
pub enum State {
    NotSynced,
    Synced { session_id: u64, update_count: u64, data: GTFSData },
}

/// The client's data and its requests.
pub struct Model {
    status: RequestStatus,
    sync: State,
}

/// The query that names a session and the number of updates it has had.
pub open spec fn sync_query(session_id: u64, update_count: u64) -> Seq<char> {
    "&id="@ + decimal(session_id as nat) + "&count="@ + decimal(update_count as nat)
}

/// What the client holds after a reply: all of the data of an initial reply; the data it
/// held with the increment's stops and trips in place of those with the same ids.
pub open spec fn received(before: State, reply: SyncData<GTFSData, GTFSSyncIncrement>, after: State) -> bool {
    match reply {
        SyncData::Initial { session_id, update_number, data } => after == State::Synced {
            session_id,
            update_count: update_number,
            data,
        },
        SyncData::Increment { session_id, update_number, increment } => match (before, after) {
            (State::Synced { data: old_data, .. }, State::Synced { session_id: s, update_count, data }) => {
                &&& s == session_id
                &&& update_count == update_number
                &&& data.stop_map() == old_data.stop_map().union_prefer_right(increment.stops@)
                &&& data.trip_map() == old_data.trip_map().union_prefer_right(increment.trips@)
                &&& data.day_services() == old_data.day_services()
                &&& data.start_date() == old_data.start_date()
            },
            _ => false,
        },
    }
}

/// A reply can be taken in: an increment comes for the session whose data the client holds.
pub open spec fn can_receive(state: State, reply: SyncData<GTFSData, GTFSSyncIncrement>) -> bool {
    match reply {
        SyncData::Initial { .. } => true,
        SyncData::Increment { session_id, .. } => match state {
            State::Synced { session_id: ours, .. } => ours == session_id,
            State::NotSynced => false,
        },
    }
}

impl Default for Model {
    fn default() -> (m: Model)
        ensures
            m.status() == RequestStatus::Ready,
            m.state() is NotSynced,
    {
        Model { status: RequestStatus::Ready, sync: State::NotSynced }
    }
}

impl Model {
    /// Whether a request is under way.
    pub closed spec fn status(&self) -> RequestStatus {
        self.status
    }

    /// The data held.
    pub closed spec fn state(&self) -> State {
        self.sync
    }

    /// The url to fetch from: `url`, and when the client holds data, the session and the
    /// number of its last update.
    pub fn url(&self, url: String) -> (u: String)
        ensures
            u@ == match self.state() {
                State::Synced { session_id, update_count, .. } => url@ + sync_query(session_id, update_count),
                State::NotSynced => url@,
            },
    {
        let mut url = url;
        if let State::Synced { session_id, update_count, .. } = &self.sync {
            proof {
                reveal_strlit("&id=");
                reveal_strlit("&count=");
            }
            url.append("&id=");
            push_decimal_u64(&mut url, *session_id);
            url.append("&count=");
            push_decimal_u64(&mut url, *update_count);
        }
        url
    }

    /// Takes in a reply: the data of an initial reply, or an increment to the data held.
    pub fn receive(&mut self, sync_data: SyncData<GTFSData, GTFSSyncIncrement>) -> (d: &GTFSData)
        requires
            can_receive(old(self).state(), sync_data),
        ensures
            received(old(self).state(), sync_data, final(self).state()),
            final(self).status() == old(self).status(),
            final(self).state() matches State::Synced { data, .. } && *d == data,
    {
        match sync_data {
            SyncData::Initial { session_id, update_number, data } => {
                self.sync = State::Synced { session_id, update_count: update_number, data };
            },
            SyncData::Increment { increment, update_number, session_id } => {
                let mut held = State::NotSynced;
                std::mem::swap(&mut held, &mut self.sync);
                match held {
                    State::Synced { session_id: ours, update_count: _, data } => {
                        let mut data = data;
                        data.add_increment(increment);
                        self.sync = State::Synced { session_id: ours, update_count: update_number, data };
                    },
                    State::NotSynced => {},
                }
            },
        }
        match &self.sync {
            State::Synced { data, .. } => data,
            State::NotSynced => vstd::pervasive::unreached(),
        }
    }

    /// The data held, if any.
    pub fn get(&self) -> (d: Option<&GTFSData>)
        ensures
            match self.state() {
                State::Synced { data, .. } => d == Some(&data),
                State::NotSynced => d is None,
            },
    {
        match &self.sync {
            State::NotSynced => None,
            State::Synced { data, .. } => Some(data),
        }
    }

    /// No request has been made and no data is held.
    pub fn never_requested(&self) -> (b: bool)
        ensures
            b == (self.status() == RequestStatus::Ready && self.state() is NotSynced),
    {
        self.status == RequestStatus::Ready && self.get().is_none()
    }
}

/// The next step of the client on a message: which request to make, what status follows and
/// whether to draw again. A wish for data is served at once when no request is under way and
/// is remembered otherwise; a reply ends the request under way and, when data was wished for
/// meanwhile, asks for it again.
pub fn update(msg: Msg, model: &mut Model, url: String, orders: &mut Vec<Order>) -> (redraw: bool)
    requires
        msg matches Msg::DataFetched(Ok(reply)) ==> old(model).status() != RequestStatus::Ready
            && can_receive(old(model).state(), reply),
    ensures
        match msg {
            Msg::FetchData => {
                &&& !redraw
                &&& final(model).state() == old(model).state()
                &&& if old(model).status() == RequestStatus::Ready {
                    &&& final(model).status() == RequestStatus::InProgress
                    &&& final(orders)@.len() == old(orders)@.len() + 2
                    &&& final(orders)@[old(orders)@.len() as int] matches Order::PerformRequest(u) && u@ == match old(
                        model,
                    ).state() {
                        State::Synced { session_id, update_count, .. } => url@ + sync_query(session_id, update_count),
                        State::NotSynced => url@,
                    }
                    &&& final(orders)@[old(orders)@.len() as int + 1] == Order::Skip
                    &&& final(orders)@.take(old(orders)@.len() as int) == old(orders)@
                } else {
                    &&& final(model).status() == RequestStatus::Invalidated
                    &&& final(orders)@ == old(orders)@
                }
            },
            Msg::DataFetched(Ok(reply)) => {
                &&& redraw
                &&& received(old(model).state(), reply, final(model).state())
                &&& final(model).status() == RequestStatus::Ready
                &&& final(orders)@ == if old(model).status() == RequestStatus::Invalidated {
                    old(orders)@.push(Order::SendFetchData)
                } else {
                    old(orders)@
                }
            },
            Msg::DataFetched(Err(_)) => {
                &&& !redraw
                &&& final(model).state() == old(model).state()
                &&& final(model).status() == RequestStatus::Ready
                &&& final(orders)@ == old(orders)@.push(Order::Skip)
            },
        },
{
    match msg {
        Msg::FetchData => {
            match model.status {
                RequestStatus::Ready => {
                    let request_url = model.url(url);
                    orders.push(Order::PerformRequest(request_url));
                    orders.push(Order::Skip);
                    model.status = RequestStatus::InProgress;
                },
                _ => {
                    model.status = RequestStatus::Invalidated;
                },
            }
            false
        },
        Msg::DataFetched(Ok(data)) => {
            model.receive(data);
            match model.status {
                RequestStatus::Invalidated => {
                    model.status = RequestStatus::Ready;
                    orders.push(Order::SendFetchData);
                },
                _ => {
                    model.status = RequestStatus::Ready;
                },
            }
            true
        },
        Msg::DataFetched(Err(_)) => {
            model.status = RequestStatus::Ready;
            orders.push(Order::Skip);
            false
        },
    }
}

} // verus!
