use breachcheck::{Action, App, BreachResult, Message, SearchResult};

const PASSWORD_DIGEST: &str = "5BAA61E4C9B93F3F0682250B6CF8331B7EE68FD8";

#[test]
fn initial_state_is_not_submitted() {
    let app = App::default();
    assert!(matches!(app.state, SearchResult::NotSubmitted));
    assert_eq!(app.password, "");
    assert_eq!(app.current_hash, "");
    assert!(!app.show);
}

#[test]
fn editing_updates_digest_and_resets_outcome() {
    let mut app = App::default();
    let action = app.update(Message::Input("password".to_string()));
    assert!(matches!(action, Action::Idle));
    assert_eq!(app.password, "password");
    assert_eq!(app.current_hash, PASSWORD_DIGEST);
    assert!(matches!(app.state, SearchResult::NotSubmitted));
}

#[test]
fn submit_searches_with_the_current_digest() {
    let mut app = App::default();
    app.update(Message::Input("password".to_string()));
    let action = app.update(Message::Submit);
    assert!(matches!(app.state, SearchResult::Searching));
    match action {
        Action::Fetch(hash) => assert_eq!(hash, PASSWORD_DIGEST),
        Action::Idle => panic!("submitting must ask for a fetch"),
    }
}

#[test]
fn transport_failure_scenario() {
    let mut app = App::default();
    assert!(matches!(app.state, SearchResult::NotSubmitted));
    app.update(Message::Input("password".to_string()));
    app.update(Message::Submit);
    assert!(matches!(app.state, SearchResult::Searching));
    app.update(Message::BreachResult(Err("connection error".to_string())));
    match &app.state {
        SearchResult::Errored(error) => assert_eq!(error, "connection error"),
        _ => panic!("a transport failure must leave an errored outcome"),
    }
}

#[test]
fn resolved_lookup_lands_in_breaches() {
    let mut app = App::default();
    app.update(Message::Input("password".to_string()));
    app.update(Message::Submit);
    let found = BreachResult::new("1E4C9B93F3F0682250B6CF8331B7EE68FD8:3", PASSWORD_DIGEST);
    app.update(Message::BreachResult(Ok(found)));
    match &app.state {
        SearchResult::Breaches(breach) => {
            assert_eq!(breach.sites, 1);
            assert_eq!(breach.occurrences, 3);
        }
        _ => panic!("a returned result must leave a resolved outcome"),
    }
}

#[test]
fn editing_after_a_resolved_state_resets_to_not_submitted() {
    let mut app = App::default();
    app.update(Message::Input("password".to_string()));
    app.update(Message::Submit);
    let found = BreachResult::new("1E4C9B93F3F0682250B6CF8331B7EE68FD8:3", PASSWORD_DIGEST);
    app.update(Message::BreachResult(Ok(found)));
    assert!(matches!(app.state, SearchResult::Breaches(_)));
    app.update(Message::Input("passwords".to_string()));
    assert!(matches!(app.state, SearchResult::NotSubmitted));
}

#[test]
fn toggling_visibility_changes_nothing_else() {
    let mut app = App::default();
    app.update(Message::Input("password".to_string()));
    let action = app.update(Message::ShowPassword(true));
    assert!(matches!(action, Action::Idle));
    assert!(app.show);
    assert_eq!(app.password, "password");
    assert_eq!(app.current_hash, PASSWORD_DIGEST);
    assert!(matches!(app.state, SearchResult::NotSubmitted));
}

#[test]
fn events_survive_cloning() {
    let message = Message::Input("abc".to_string());
    match message.clone() {
        Message::Input(text) => assert_eq!(text, "abc"),
        _ => panic!("a clone must carry the same event"),
    }
}
