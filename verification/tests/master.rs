use mieql::group::Query;
use mieql::group::ScopeContent;
use mieql::master::get_data;
use mieql::master::get_debug_data;
use mieql::master::get_queries;
use mieql::master::handshake;
use mieql::master::next_locator;
use mieql::master::not_found;
use mieql::master::register;
use mieql::master::route;
use mieql::master::verify_database;
use mieql::master::Route;
use mieql::util::get_query;

#[test]
fn routing_matches_the_protocol_table() {
    assert!(matches!(route(&b"/handshake".to_vec()), Route::Handshake));
    match route(&b"/register/swordfish".to_vec()) {
        Route::Register { secret } => assert_eq!(secret, b"swordfish".to_vec()),
        _ => panic!("a register path carries its secret"),
    }
    assert!(matches!(route(&b"/queries/".to_vec()), Route::Queries));
    assert!(matches!(route(&b"/source/".to_vec()), Route::Source));
    assert!(matches!(route(&b"/output/".to_vec()), Route::Output));
    match route(&b"/complete_source/37".to_vec()) {
        Route::CompleteSource { id } => assert_eq!(id, b"37".to_vec()),
        _ => panic!("a completion path carries its id"),
    }
    assert!(matches!(route(&b"/unregister/".to_vec()), Route::Unregister));
    match route(&b"/register/".to_vec()) {
        Route::Register { secret } => assert_eq!(secret, b"".to_vec()),
        _ => panic!("a bare register path carries an empty secret"),
    }
    assert!(matches!(route(&b"/elsewhere".to_vec()), Route::NotFound));
    assert!(matches!(route(&b"".to_vec()), Route::NotFound));
}

#[test]
fn handshake_greets() {
    let r = handshake();
    assert_eq!(r.status, 200);
    assert_eq!(r.body, b"nice to meet you".to_vec());
}

#[test]
fn unknown_paths_are_not_found() {
    let r = not_found();
    assert_eq!(r.status, 404);
    assert_eq!(r.body, b"not found".to_vec());
}

#[test]
fn registration_needs_the_shared_secret() {
    let expected = b"swordfish".to_vec();
    let session = register(&expected.clone(), &expected, b"token-1".to_vec());
    assert_eq!(session.expect("the right secret registers").access_key, b"token-1".to_vec());
    assert!(register(&b"wrong".to_vec(), &expected, b"token-2".to_vec()).is_none());
}

#[test]
fn stored_queries_win_over_the_fixture() {
    let stored = vec![Query {
        id: Some(b"q1".to_vec()),
        content: ScopeContent::Raw,
        source: b"stored query".to_vec(),
    }];
    let qs = get_queries(Some(stored), 5);
    assert_eq!(qs.len(), 1);
    assert_eq!(qs[0].id, Some(b"q1".to_vec()));
}

#[test]
fn fixture_queries_fill_in_offline() {
    let qs = get_queries(None, 3);
    assert_eq!(qs.len(), 3);
    for q in &qs {
        assert_eq!(q.id, Some(b"Igor".to_vec()));
        assert!(matches!(q.content, ScopeContent::Text));
    }
}

#[test]
fn fixture_query_text_is_the_known_definition() {
    let q = get_query();
    assert_eq!(q.id, Some(b"Igor".to_vec()));
    assert!(matches!(q.content, ScopeContent::Text));
    let text = String::from_utf8(q.source).unwrap();
    assert!(text.starts_with("Query ("));
    assert!(text.contains("[Ii]cy[Bb]ounce"));
    assert!(text.contains("Icy Bounce"));
}

#[test]
fn debug_locator_is_the_fixed_archive() {
    let locator = get_debug_data();
    let text = String::from_utf8(locator).unwrap();
    assert!(text.starts_with("crawl-data/CC-MAIN-2018-51/"));
    assert!(text.ends_with(".warc.gz"));
}

#[test]
fn leasing_answers_with_work_or_the_empty_signal() {
    let r = get_data(Some(b"bucket/object.warc.gz".to_vec()));
    assert_eq!(r.status, 200);
    assert_eq!(r.body, b"bucket/object.warc.gz".to_vec());
    let r = get_data(None);
    assert_eq!(r.status, 204);
    assert_eq!(r.body, b"".to_vec());
}

#[test]
fn next_locator_dispenses_the_fetched_row() {
    assert!(next_locator(&vec![]).is_none());
    let rows = vec![b"bucket/one".to_vec()];
    assert_eq!(next_locator(&rows), Some(b"bucket/one".to_vec()));
}

#[test]
fn schema_verification_needs_all_three_tables() {
    let all = vec![
        b"pg_settings".to_vec(),
        b"queries".to_vec(),
        b"outputs".to_vec(),
        b"inputs".to_vec(),
    ];
    assert!(verify_database(&all));
    let missing_inputs = vec![b"queries".to_vec(), b"outputs".to_vec()];
    assert!(!verify_database(&missing_inputs));
    let missing_queries = vec![b"inputs".to_vec(), b"outputs".to_vec()];
    assert!(!verify_database(&missing_queries));
    assert!(!verify_database(&vec![]));
}
