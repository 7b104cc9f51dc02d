use std::cmp::Ordering;
use transit_radar::suggester::{most_important, rank_matches};
use transit_radar::sync::{ClientSession, GTFSDataSession, SessionContainer, SessionKey};

#[test]
fn new_sessions_get_ids_from_1000() {
    let mut sessions: SessionContainer<GTFSDataSession> = SessionContainer::new();
    let first = sessions.session_filter(SessionKey { id: None, count: None });
    let second = sessions.session_filter(SessionKey { id: None, count: None });
    assert_eq!((first, second), (1000, 1001));
    assert_eq!(sessions.new_session_id(), 1002);
}

#[test]
fn a_session_in_step_is_kept_and_one_out_of_step_restarts() {
    let mut sessions: SessionContainer<GTFSDataSession> = SessionContainer::new();
    let id = sessions.session_filter(SessionKey { id: Some(7), count: Some(0) });
    assert_eq!(id, 7);
    let mut session = sessions.take_session(7).unwrap();
    assert_eq!(session.update_number(), 0);
    // pretend two updates were sent
    let data = transit_radar::search_data::GTFSData::builder(vec![], String::new()).build();
    session.add_data(&data, &data);
    session.add_data(&data, &data);
    sessions.put_session(7, session);

    sessions.session_filter(SessionKey { id: Some(7), count: Some(2) });
    assert_eq!(sessions.take_session(7).unwrap().update_number(), 2);
    sessions.put_session(7, GTFSDataSession::new(7));
    let mut s = sessions.take_session(7).unwrap();
    s.add_data(&data, &data);
    sessions.put_session(7, s);
    // the client says it had no update: the session starts anew
    sessions.session_filter(SessionKey { id: Some(7), count: None });
    assert_eq!(sessions.take_session(7).unwrap().update_number(), 0);
}

#[test]
fn most_important_orders_by_importance_then_id() {
    assert_eq!(most_important(&(5, 10), &(1, 2)), Ordering::Less);
    assert_eq!(most_important(&(1, 2), &(5, 10)), Ordering::Greater);
    assert_eq!(most_important(&(1, 3), &(2, 3)), Ordering::Less);
    assert_eq!(most_important(&(2, 3), &(2, 3)), Ordering::Equal);
}

#[test]
fn rank_matches_keeps_the_most_important() {
    let ranked = rank_matches(vec![(3, 1), (1, 5), (2, 5), (4, 0)], 3);
    assert_eq!(ranked, vec![(1, 5), (2, 5), (3, 1)]);
    assert_eq!(rank_matches(vec![(3, 1)], 20), vec![(3, 1)]);
}
