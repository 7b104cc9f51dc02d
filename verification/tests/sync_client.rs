use std::collections::HashMap;
use transit_radar::search_data::{Day, GTFSData};
use transit_radar::sync::{GTFSSyncIncrement, SyncData};
use transit_radar::sync_client::{update, LoadError, Model, Msg, Order};

fn empty_data() -> GTFSData {
    GTFSData::builder(vec![(Day::Monday, vec![1, 2])], "20200101".to_string()).build()
}

#[test]
fn a_fresh_client_has_never_requested() {
    let model = Model::default();
    assert!(model.never_requested());
    assert!(model.get().is_none());
    assert_eq!(model.url("/data?x=1".to_string()), "/data?x=1");
}

#[test]
fn fetching_makes_one_request_at_a_time() {
    let mut model = Model::default();
    let mut orders = Vec::new();
    let redraw = update(Msg::FetchData, &mut model, "/data?x=1".to_string(), &mut orders);
    assert!(!redraw);
    assert_eq!(orders, vec![Order::PerformRequest("/data?x=1".to_string()), Order::Skip]);
    assert!(!model.never_requested());

    // a second wish while the first request is under way makes no request yet
    let redraw = update(Msg::FetchData, &mut model, "/data?x=2".to_string(), &mut orders);
    assert!(!redraw);
    assert_eq!(orders.len(), 2);

    // the reply comes in and the wish is handed back
    let reply = SyncData::Initial { session_id: 5, update_number: 0, data: empty_data() };
    let redraw = update(Msg::DataFetched(Ok(reply)), &mut model, "/data?x=2".to_string(), &mut orders);
    assert!(redraw);
    assert_eq!(orders.len(), 3);
    assert_eq!(orders[2], Order::SendFetchData);
    assert!(model.get().is_some());
    assert_eq!(model.url("/data?x=2".to_string()), "/data?x=2&id=5&count=0");
}

#[test]
fn a_reply_without_a_new_wish_asks_nothing_more() {
    let mut model = Model::default();
    let mut orders = Vec::new();
    update(Msg::FetchData, &mut model, "/d?".to_string(), &mut orders);
    let reply = SyncData::Initial { session_id: 9, update_number: 3, data: empty_data() };
    update(Msg::DataFetched(Ok(reply)), &mut model, "/d?".to_string(), &mut orders);
    assert_eq!(orders.len(), 2);
    assert_eq!(model.url("/d?".to_string()), "/d?&id=9&count=3");

    // an increment for the same session updates the count
    update(Msg::FetchData, &mut model, "/d?".to_string(), &mut orders);
    assert_eq!(orders[2], Order::PerformRequest("/d?&id=9&count=3".to_string()));
    let increment = GTFSSyncIncrement { stops: HashMap::new(), trips: HashMap::new() };
    let reply = SyncData::Increment { session_id: 9, update_number: 4, increment };
    update(Msg::DataFetched(Ok(reply)), &mut model, "/d?".to_string(), &mut orders);
    assert_eq!(model.url("/d?".to_string()), "/d?&id=9&count=4");
}

#[test]
fn a_failed_request_frees_the_client() {
    let mut model = Model::default();
    let mut orders = Vec::new();
    update(Msg::FetchData, &mut model, "/d".to_string(), &mut orders);
    let redraw = update(
        Msg::DataFetched(Err(LoadError::FetchError("offline".to_string()))),
        &mut model,
        "/d".to_string(),
        &mut orders,
    );
    assert!(!redraw);
    assert_eq!(orders.last(), Some(&Order::Skip));
    assert!(model.never_requested());
    update(Msg::FetchData, &mut model, "/d".to_string(), &mut orders);
    assert_eq!(orders[orders.len() - 2], Order::PerformRequest("/d".to_string()));
}
