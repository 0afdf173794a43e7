use bruty::dispatch::{Coordinator, DispatchError};
use bruty::enumerator::Enumerator;
use bruty::prefix::rank_of;
use bruty::protocol::ErrorCode;

fn p(s: &str) -> Vec<char> {
    s.chars().collect()
}

fn text(v: &[char]) -> String {
    v.iter().collect()
}

#[test]
fn first_run_persists_first_prefix_and_dispatches_next() {
    let mut c = Coordinator::new(&p("aaaaaaa"), &None);
    let s1 = c.open_session();
    let first = c.request_next(s1).unwrap();
    assert_eq!(text(&first), "aaaaaaaa");
    assert_eq!(c.watermark(), None);
    let next = c.submit_result(s1, &first).unwrap();
    assert_eq!(c.watermark().map(|w| text(&w)), Some("aaaaaaaa".to_string()));
    assert_eq!(next.map(|n| text(&n)), Some("aaaaaaab".to_string()));
}

#[test]
fn out_of_order_acknowledgement_waits_for_earlier_prefix() {
    let mut c = Coordinator::new(&p("aaaaaaa"), &None);
    let s1 = c.open_session();
    let s2 = c.open_session();
    assert_eq!(text(&c.request_next(s1).unwrap()), "aaaaaaaa");
    assert_eq!(text(&c.request_next(s2).unwrap()), "aaaaaaab");
    let _ = c.submit_result(s2, &p("aaaaaaab")).unwrap();
    assert!(c.is_outstanding(&p("aaaaaaaa")));
    assert!(!c.is_outstanding(&p("aaaaaaab")));
    assert_eq!(c.watermark(), None);
    let _ = c.submit_result(s1, &p("aaaaaaaa")).unwrap();
    assert_eq!(c.watermark().map(|w| text(&w)), Some("aaaaaaab".to_string()));
}

#[test]
fn two_workers_scenario_outstanding_set() {
    let mut c = Coordinator::new(&p("aaaaaaa"), &None);
    let s1 = c.open_session();
    let s2 = c.open_session();
    c.request_next(s1).unwrap();
    c.request_next(s2).unwrap();
    // S2's refuel takes the next fresh prefix, which is outstanding too.
    let refuel = c.submit_result(s2, &p("aaaaaaab")).unwrap();
    assert_eq!(refuel.map(|n| text(&n)), Some("aaaaaaac".to_string()));
    assert!(c.is_outstanding(&p("aaaaaaaa")));
    assert!(c.is_outstanding(&p("aaaaaaac")));
    assert_eq!(c.watermark(), None);
}

#[test]
fn disconnected_prefix_goes_to_next_worker_first() {
    let mut c = Coordinator::new(&p("aaaaaaa"), &None);
    let s1 = c.open_session();
    assert_eq!(text(&c.request_next(s1).unwrap()), "aaaaaaaa");
    c.on_session_close(s1);
    assert_eq!(c.queued_len(), 1);
    assert!(c.is_outstanding(&p("aaaaaaaa")));
    let s3 = c.open_session();
    assert_eq!(text(&c.request_next(s3).unwrap()), "aaaaaaaa");
    let next = c.submit_result(s3, &p("aaaaaaaa")).unwrap();
    assert_eq!(next.map(|n| text(&n)), Some("aaaaaaab".to_string()));
}

#[test]
fn unrelated_prefix_is_rejected_and_stays_outstanding() {
    let mut c = Coordinator::new(&p("aaaaaaa"), &None);
    let s1 = c.open_session();
    assert_eq!(text(&c.request_next(s1).unwrap()), "aaaaaaaa");
    let r = c.submit_result(s1, &p("aaaaaaaz"));
    assert_eq!(r.err(), Some(ErrorCode::WrongResultString));
    assert!(c.is_outstanding(&p("aaaaaaaa")));
    assert_eq!(c.watermark(), None);
    c.on_session_close(s1);
    let s2 = c.open_session();
    assert_eq!(text(&c.request_next(s2).unwrap()), "aaaaaaaa");
}

#[test]
fn result_without_dispatch_is_rejected() {
    let mut c = Coordinator::new(&p("aaaaaaaa"), &None);
    let s1 = c.open_session();
    let r = c.submit_result(s1, &p("aaaaaaaa"));
    assert_eq!(r.err(), Some(ErrorCode::NotExpectingResults));
}

#[test]
fn second_request_while_awaiting_fails() {
    let mut c = Coordinator::new(&p("aaaaaaaa"), &None);
    let s1 = c.open_session();
    c.request_next(s1).unwrap();
    assert_eq!(c.request_next(s1).err(), Some(DispatchError::AlreadyAwaiting));
}

#[test]
fn restart_resumes_after_persisted_watermark() {
    let mut c = Coordinator::new(&p("aaaaaaa"), &Some(p("aaaaaaac")));
    let s1 = c.open_session();
    assert_eq!(text(&c.request_next(s1).unwrap()), "aaaaaaad");
    assert_eq!(c.watermark().map(|w| text(&w)), Some("aaaaaaac".to_string()));
}

#[test]
fn resumed_run_advances_from_persisted_watermark() {
    let mut c = Coordinator::new(&p("aaaaaaa"), &Some(p("aaaaaaac")));
    let s1 = c.open_session();
    assert_eq!(text(&c.request_next(s1).unwrap()), "aaaaaaad");
    let next = c.submit_result(s1, &p("aaaaaaad")).unwrap();
    assert_eq!(next.map(|n| text(&n)), Some("aaaaaaae".to_string()));
    assert_eq!(c.watermark().map(|w| text(&w)), Some("aaaaaaad".to_string()));
}

#[test]
fn last_prefix_of_subtree_gives_one_dispatch() {
    let mut c = Coordinator::new(&p("________"), &None);
    let s1 = c.open_session();
    assert_eq!(text(&c.request_next(s1).unwrap()), "________");
    let next = c.submit_result(s1, &p("________")).unwrap();
    assert!(next.is_none());
    assert_eq!(c.watermark().map(|w| text(&w)), Some("________".to_string()));
    let mut e = Enumerator::new(&p("________"), &None);
    assert_eq!(e.next().map(|v| text(&v)), Some("________".to_string()));
    assert!(e.next().is_none());
}

#[test]
fn no_workers_means_empty_queue() {
    let c = Coordinator::new(&p("aaaaaaaa"), &None);
    assert_eq!(c.connected_workers(), 0);
    assert_eq!(c.queued_len(), 0);
    assert!(!c.is_outstanding(&p("aaaaaaaa")));
}

#[test]
fn closing_twice_equals_closing_once() {
    let mut c = Coordinator::new(&p("aaaaaaaa"), &None);
    let s1 = c.open_session();
    c.request_next(s1).unwrap();
    c.on_session_close(s1);
    c.on_session_close(s1);
    assert_eq!(c.queued_len(), 1);
    assert_eq!(c.connected_workers(), 0);
}

#[test]
fn exhausted_subtree_reports_exhausted() {
    let mut c = Coordinator::new(&p("aaaaaaaa"), &None);
    let s1 = c.open_session();
    c.request_next(s1).unwrap();
    c.submit_result(s1, &p("aaaaaaaa")).unwrap();
    let s2 = c.open_session();
    // The subtree of an eight-symbol start holds that prefix alone.
    assert_eq!(c.request_next(s2).err(), Some(DispatchError::Exhausted));
}

#[test]
fn connected_workers_counts_open_sessions() {
    let mut c = Coordinator::new(&p("aaaaaaaa"), &None);
    let s1 = c.open_session();
    let _s2 = c.open_session();
    assert_eq!(c.connected_workers(), 2);
    c.on_session_close(s1);
    assert_eq!(c.connected_workers(), 1);
}

#[test]
fn eight_symbol_start_gives_one_dispatch() {
    let mut c = Coordinator::new(&p("aaaaaaaa"), &None);
    let s1 = c.open_session();
    assert_eq!(text(&c.request_next(s1).unwrap()), "aaaaaaaa");
    let next = c.submit_result(s1, &p("aaaaaaaa")).unwrap();
    assert!(next.is_none());
}

#[test]
fn watermark_outside_subtree_before_it_is_ignored() {
    let mut c = Coordinator::new(&p("aaaaaab"), &Some(p("aaaaaaac")));
    let s1 = c.open_session();
    assert_eq!(text(&c.request_next(s1).unwrap()), "aaaaaaba");
}

#[test]
fn watermark_at_end_of_subtree_leaves_nothing() {
    let mut c = Coordinator::new(&p("aaaaaaa"), &Some(p("aaaaaaa_")));
    let s1 = c.open_session();
    assert_eq!(c.request_next(s1).err(), Some(DispatchError::Exhausted));
}

#[test]
fn watermark_never_moves_back() {
    let mut c = Coordinator::new(&p("aaaaaaa"), &None);
    let s1 = c.open_session();
    let s2 = c.open_session();
    let s3 = c.open_session();
    let mut held = vec![
        (s1, c.request_next(s1).unwrap()),
        (s2, c.request_next(s2).unwrap()),
        (s3, c.request_next(s3).unwrap()),
    ];
    let mut last: Option<Vec<char>> = None;
    for i in 0..50 {
        // acknowledge out of order: mostly the newest, now and then the oldest
        let at = if i % 3 == 0 { 0 } else { held.len() - 1 };
        let (slot, prefix) = held.remove(at);
        let next = c.submit_result(slot, &prefix).unwrap().unwrap();
        let w = c.watermark();
        if let (Some(a), Some(b)) = (&last, &w) {
            assert!(rank_of(a) <= rank_of(b));
        }
        assert!(!(last.is_some() && w.is_none()));
        if let Some(b) = &w {
            for (_, q) in &held {
                assert!(rank_of(b) < rank_of(q));
            }
        }
        last = w;
        held.push((slot, next));
    }
    assert!(rank_of(&last.unwrap()) >= 26);
}

#[test]
fn a_prefix_is_accepted_once() {
    let mut c = Coordinator::new(&p("aaaaaaa"), &None);
    let s1 = c.open_session();
    let first = c.request_next(s1).unwrap();
    let next = c.submit_result(s1, &first).unwrap().unwrap();
    assert_eq!(text(&next), "aaaaaaab");
    assert_eq!(c.submit_result(s1, &first).err(), Some(ErrorCode::WrongResultString));
    assert!(c.is_outstanding(&p("aaaaaaab")));
    assert!(!c.is_outstanding(&first));
}

#[test]
fn results_are_accepted_only_from_the_dispatched_session() {
    let mut c = Coordinator::new(&p("aaaaaaa"), &None);
    let s1 = c.open_session();
    let s2 = c.open_session();
    let p1 = c.request_next(s1).unwrap();
    assert_eq!(c.submit_result(s2, &p1).err(), Some(ErrorCode::NotExpectingResults));
    let p2 = c.request_next(s2).unwrap();
    assert_eq!(c.submit_result(s2, &p1).err(), Some(ErrorCode::WrongResultString));
    assert_eq!(c.awaited_prefix(s1), Some(p1.clone()));
    assert_eq!(c.awaited_prefix(s2), Some(p2.clone()));
    assert!(c.submit_result(s1, &p1).is_ok());
}

#[test]
fn literal_start_disconnect_redispatches_same_prefix() {
    let mut c = Coordinator::new(&p("aaaaaaaa"), &None);
    let s1 = c.open_session();
    assert_eq!(text(&c.request_next(s1).unwrap()), "aaaaaaaa");
    c.on_session_close(s1);
    let s3 = c.open_session();
    assert_eq!(text(&c.request_next(s3).unwrap()), "aaaaaaaa");
}

#[test]
fn literal_start_wrong_echo_keeps_prefix_outstanding() {
    let mut c = Coordinator::new(&p("aaaaaaaa"), &None);
    let s1 = c.open_session();
    assert_eq!(text(&c.request_next(s1).unwrap()), "aaaaaaaa");
    assert_eq!(c.submit_result(s1, &p("aaaaaaaz")).err(), Some(ErrorCode::WrongResultString));
    assert!(c.is_outstanding(&p("aaaaaaaa")));
}

#[test]
fn non_base_prefixes_are_never_outstanding() {
    let mut c = Coordinator::new(&p("aaaaaaa"), &None);
    let s1 = c.open_session();
    c.request_next(s1).unwrap();
    assert!(c.is_outstanding(&p("aaaaaaaa")));
    assert!(!c.is_outstanding(&p("aaaaaaa")));
    assert!(!c.is_outstanding(&p("aaaaaaaaa")));
    assert!(!c.is_outstanding(&p("aaaaaaa!")));
}
