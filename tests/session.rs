use bruty::dispatch::Coordinator;
use bruty::protocol::{
    Data, ErrorCode, IdentifyData, OperationCode, Payload, TestRequestData, TestingResultData,
};
use bruty::session::{
    admits_user_agent, check_authenticated, handle_payload, identify, on_tick, Session,
    SessionAction,
};
use bruty::types::User;

fn p(s: &str) -> Vec<char> {
    s.chars().collect()
}

fn users() -> Vec<User> {
    vec![
        User { id: 0, name: "ann".to_string(), secret: "s0".to_string() },
        User { id: 1, name: "bob".to_string(), secret: "s1".to_string() },
    ]
}

fn identify_payload(version: &str, id: u8, secret: &str) -> Payload {
    Payload {
        op_code: OperationCode::Identify,
        data: Data::Identify(IdentifyData {
            client_version: version.to_string(),
            id,
            secret: secret.to_string(),
        }),
    }
}

fn result_payload(prefix: &str) -> Payload {
    Payload {
        op_code: OperationCode::TestingResult,
        data: Data::TestingResult(TestingResultData { id: p(prefix), positives: vec![] }),
    }
}

#[test]
fn populate_descriptions() {
    let d = ErrorCode::WrongResultString.populate();
    assert_eq!(d.code, ErrorCode::WrongResultString);
    assert_eq!(d.description, "Wrong result string");
    assert_eq!(d.explanation, "Your results don't start from the ID we are expecting.");
    let t = ErrorCode::SessionTimeout.populate();
    assert_eq!(t.description, "Session timeout");
    assert_eq!(t.explanation, "You didn't send a heartbeat in time.");
    assert_eq!(ErrorCode::UnknownError.populate().description, "Unknown error");
    assert_eq!(ErrorCode::NotAuthenticated.populate().explanation, "You need to authenticate first.");
}

#[test]
fn identify_admits_matching_secret() {
    let mut c = Coordinator::new(&p("aaaaaaa"), &None);
    let mut s = Session::new(c.open_session());
    let data = IdentifyData { client_version: "0.6.1".to_string(), id: 1, secret: "s1".to_string() };
    match identify(&mut c, &mut s, &users(), &data) {
        SessionAction::Dispatch(v) => assert_eq!(v, p("aaaaaaaa")),
        other => panic!("unexpected {:?}", other),
    }
    assert!(s.authenticated);
    assert_eq!(s.user.name, "bob");
    assert_eq!(c.awaited_prefix(s.slot), Some(p("aaaaaaaa")));
    assert!(c.is_outstanding(&p("aaaaaaaa")));
}

#[test]
fn identify_rejects_bad_version_user_and_secret() {
    let mut c = Coordinator::new(&p("aaaaaaa"), &None);
    let mut s = Session::new(c.open_session());
    let old = IdentifyData { client_version: "0.5.0".to_string(), id: 1, secret: "s1".to_string() };
    assert!(matches!(
        identify(&mut c, &mut s, &users(), &old),
        SessionAction::Close(ErrorCode::UnsupportedClientVersion)
    ));
    let unknown = IdentifyData { client_version: "0.6.1".to_string(), id: 7, secret: "s1".to_string() };
    assert!(matches!(
        identify(&mut c, &mut s, &users(), &unknown),
        SessionAction::Close(ErrorCode::AuthenticationFailed)
    ));
    let wrong = IdentifyData { client_version: "0.6.1".to_string(), id: 0, secret: "s1".to_string() };
    assert!(matches!(
        identify(&mut c, &mut s, &users(), &wrong),
        SessionAction::Close(ErrorCode::AuthenticationFailed)
    ));
    assert!(!s.authenticated);
    assert_eq!(s.user.name, "unknown");
    assert_eq!(c.awaited_prefix(s.slot), None);
    assert!(!c.is_outstanding(&p("aaaaaaaa")));
    assert_eq!(check_authenticated(&s).err(), Some(ErrorCode::NotAuthenticated));
}

#[test]
fn identify_after_disconnect_hands_out_returned_prefix() {
    let mut c = Coordinator::new(&p("aaaaaaaa"), &None);
    let mut s1 = Session::new(c.open_session());
    let d1 = IdentifyData { client_version: "0.6.1".to_string(), id: 0, secret: "s0".to_string() };
    assert!(matches!(identify(&mut c, &mut s1, &users(), &d1), SessionAction::Dispatch(_)));
    c.on_session_close(s1.slot);
    let mut s3 = Session::new(c.open_session());
    let d3 = IdentifyData { client_version: "0.6.1".to_string(), id: 1, secret: "s1".to_string() };
    match identify(&mut c, &mut s3, &users(), &d3) {
        SessionAction::Dispatch(v) => assert_eq!(v, p("aaaaaaaa")),
        other => panic!("unexpected {:?}", other),
    }
    assert_eq!(c.awaited_prefix(s3.slot), Some(p("aaaaaaaa")));
    assert_eq!(c.queued_len(), 0);
}

#[test]
fn heartbeat_op_sets_flag_whatever_its_data() {
    let mut c = Coordinator::new(&p("aaaaaaa"), &None);
    let mut s = Session::new(c.open_session());
    let odd = Payload { op_code: OperationCode::Heartbeat, data: Data::TestRequestData(TestRequestData { id: p("x") }) };
    assert!(matches!(handle_payload(&mut c, &mut s, &users(), &odd), SessionAction::Continue));
    assert!(s.heartbeat_received);
    assert!(!s.authenticated);
    assert_eq!(s.user.name, "unknown");
}

#[test]
fn coordinator_only_ops_close_with_unexpected_op() {
    let mut c = Coordinator::new(&p("aaaaaaa"), &None);
    let mut s = Session::new(c.open_session());
    let us = users();
    let with_other_data = Payload { op_code: OperationCode::TestRequestData, data: Data::Heartbeat };
    assert!(matches!(
        handle_payload(&mut c, &mut s, &us, &with_other_data),
        SessionAction::Close(ErrorCode::UnexpectedOP)
    ));
    let invalid = Payload {
        op_code: OperationCode::InvalidSession,
        data: Data::Identify(IdentifyData { client_version: "0.6.1".to_string(), id: 0, secret: "s0".to_string() }),
    };
    assert!(matches!(
        handle_payload(&mut c, &mut s, &us, &invalid),
        SessionAction::Close(ErrorCode::UnexpectedOP)
    ));
    assert!(!s.authenticated);
    assert!(!s.heartbeat_received);
    assert_eq!(c.awaited_prefix(s.slot), None);
}

#[test]
fn heartbeat_tick_times_out_without_heartbeat() {
    let mut s = Session::new(0);
    assert_eq!(on_tick(&mut s).err(), Some(ErrorCode::SessionTimeout));
    s.heartbeat_received = true;
    assert!(on_tick(&mut s).is_ok());
    assert!(!s.heartbeat_received);
    assert_eq!(on_tick(&mut s).err(), Some(ErrorCode::SessionTimeout));
}

#[test]
fn session_flow_identify_then_results() {
    let mut c = Coordinator::new(&p("aaaaaaa"), &None);
    let mut s = Session::new(c.open_session());
    let us = users();
    match handle_payload(&mut c, &mut s, &us, &identify_payload("0.6.1", 0, "s0")) {
        SessionAction::Dispatch(v) => assert_eq!(v, p("aaaaaaaa")),
        other => panic!("unexpected {:?}", other),
    }
    let hb = Payload { op_code: OperationCode::Heartbeat, data: Data::Heartbeat };
    assert!(matches!(handle_payload(&mut c, &mut s, &us, &hb), SessionAction::Continue));
    assert!(s.heartbeat_received);
    match handle_payload(&mut c, &mut s, &us, &result_payload("aaaaaaaa")) {
        SessionAction::Dispatch(v) => assert_eq!(v, p("aaaaaaab")),
        other => panic!("unexpected {:?}", other),
    }
    assert_eq!(c.watermark(), Some(p("aaaaaaaa")));
}

#[test]
fn session_wrong_result_closes_and_keeps_outstanding() {
    let mut c = Coordinator::new(&p("aaaaaaa"), &None);
    let mut s = Session::new(c.open_session());
    let us = users();
    handle_payload(&mut c, &mut s, &us, &identify_payload("0.6.1", 0, "s0"));
    match handle_payload(&mut c, &mut s, &us, &result_payload("aaaaaaaz")) {
        SessionAction::Close(code) => assert_eq!(code, ErrorCode::WrongResultString),
        other => panic!("unexpected {:?}", other),
    }
    assert!(c.is_outstanding(&p("aaaaaaaa")));
    let d = ErrorCode::WrongResultString.populate();
    assert_eq!(d.code, ErrorCode::WrongResultString);
}

#[test]
fn session_rejects_unexpected_and_malformed_messages() {
    let mut c = Coordinator::new(&p("aaaaaaa"), &None);
    let mut s = Session::new(c.open_session());
    let us = users();
    let before_auth = handle_payload(&mut c, &mut s, &us, &result_payload("aaaaaaaa"));
    assert!(matches!(before_auth, SessionAction::Close(ErrorCode::NotAuthenticated)));
    let wrong_dir = Payload {
        op_code: OperationCode::TestRequestData,
        data: Data::TestRequestData(TestRequestData { id: p("aaaaaaaa") }),
    };
    assert!(matches!(
        handle_payload(&mut c, &mut s, &us, &wrong_dir),
        SessionAction::Close(ErrorCode::UnexpectedOP)
    ));
    let mismatched = Payload { op_code: OperationCode::Identify, data: Data::Heartbeat };
    assert!(matches!(
        handle_payload(&mut c, &mut s, &us, &mismatched),
        SessionAction::Close(ErrorCode::DecodeError)
    ));
    let bad_auth = handle_payload(&mut c, &mut s, &us, &identify_payload("0.6.1", 1, "nope"));
    assert!(matches!(bad_auth, SessionAction::Close(ErrorCode::AuthenticationFailed)));
    handle_payload(&mut c, &mut s, &us, &identify_payload("0.6.1", 1, "s1"));
    let again = handle_payload(&mut c, &mut s, &us, &identify_payload("0.6.1", 1, "s1"));
    assert!(matches!(again, SessionAction::Close(ErrorCode::UnexpectedOP)));
}

#[test]
fn result_before_any_dispatch_is_not_expected() {
    let mut c = Coordinator::new(&p("aaaaaaaa"), &None);
    let s0 = c.open_session();
    let mut first = Session::new(s0);
    let us = users();
    handle_payload(&mut c, &mut first, &us, &identify_payload("0.6.1", 0, "s0"));
    let mut second = Session::new(c.open_session());
    // The subtree is used up by the first session, so the second gets nothing.
    assert!(matches!(
        handle_payload(&mut c, &mut second, &us, &identify_payload("0.6.1", 1, "s1")),
        SessionAction::Continue
    ));
    assert!(matches!(
        handle_payload(&mut c, &mut second, &us, &result_payload("aaaaaaaa")),
        SessionAction::Close(ErrorCode::NotExpectingResults)
    ));
}

#[test]
fn only_the_worker_user_agent_is_admitted() {
    assert!(admits_user_agent("bruty"));
    assert!(!admits_user_agent("Bruty"));
    assert!(!admits_user_agent("bruty/1"));
    assert!(!admits_user_agent(""));
    assert!(!admits_user_agent("curl/8.0"));
}
