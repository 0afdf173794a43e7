use bruty::aggregate::ResultsAggregator;
use bruty::protocol::{Data, ErrorCode, InvalidSessionData, OperationCode, Payload, TestRequestData};
use bruty::report::{get_statistics, matches_author_filter, matches_folded, terminal_link};
use bruty::types::{Video, VideoData, VideoEvent};
use bruty::worker::{
    classify_status, completion, generate_ids, metadata_step, probe_step, worker_action, BatchCollector,
    ProbeOutcome, ProbeStep, WorkerAction,
};

fn p(s: &str) -> Vec<char> {
    s.chars().collect()
}

fn text(v: &[char]) -> String {
    v.iter().collect()
}

#[test]
fn status_classification() {
    assert_eq!(classify_status(200), ProbeOutcome::Success);
    assert_eq!(classify_status(401), ProbeOutcome::NotEmbeddable);
    assert_eq!(classify_status(400), ProbeOutcome::NotFound);
    assert_eq!(classify_status(404), ProbeOutcome::NotFound);
    assert_eq!(classify_status(429), ProbeOutcome::Transient);
    assert_eq!(classify_status(500), ProbeOutcome::Transient);
}

#[test]
fn retries_until_terminal_then_one_success() {
    let statuses = [429u16, 429, 200];
    let mut steps = Vec::new();
    for s in statuses {
        steps.push(probe_step(Some(s)));
    }
    assert_eq!(steps[0], ProbeStep::Retry(1000));
    assert_eq!(steps[1], ProbeStep::Retry(1000));
    assert_eq!(steps[2], ProbeStep::Done(VideoEvent::Success));
    assert_eq!(probe_step(None), ProbeStep::Retry(100));
    assert_eq!(probe_step(Some(503)), ProbeStep::Retry(100));

    let mut batch = BatchCollector::new(p("aaaaaaaa"));
    batch.record(Video {
        event: VideoEvent::Success,
        id: p("aaaaaaaaaaa"),
        video_data: Some(VideoData {
            title: "t".to_string(),
            author_name: "a".to_string(),
            author_url: "u".to_string(),
        }),
    });
    assert_eq!(batch.positives_len(), 1);
    let result = batch.finish();
    assert_eq!(text(&result.id), "aaaaaaaa");
    assert_eq!(result.positives.len(), 1);
    assert_eq!(result.positives[0].event, VideoEvent::Success);
    assert_eq!(result.positives[0].video_data.as_ref().unwrap().title, "t");
}

#[test]
fn batch_drops_not_found_and_completes_at_size() {
    let mut batch = BatchCollector::new(p("aaaaaaaa"));
    let ids = generate_ids(p("aaaaaaaa"));
    assert_eq!(ids.len(), 262144);
    for (i, id) in ids.into_iter().enumerate() {
        assert!(!batch.is_complete());
        let event = if i == 5 { VideoEvent::NotEmbeddable } else { VideoEvent::NotFound };
        batch.record(Video { event, id, video_data: None });
    }
    assert!(batch.is_complete());
    let result = batch.finish();
    assert_eq!(result.positives.len(), 1);
    assert_eq!(text(&result.positives[0].id), "aaaaaaaaaaf");
}

#[test]
fn generated_ids_are_ordered_completions() {
    let ids = generate_ids(p("abcdefgh"));
    assert_eq!(ids.len(), 262144);
    assert_eq!(text(&ids[0]), "abcdefghaaa");
    assert_eq!(text(&ids[1]), "abcdefghaab");
    assert_eq!(text(&ids[64]), "abcdefghaba");
    assert_eq!(text(&ids[262143]), "abcdefgh___");
    let mut sorted: Vec<String> = ids.iter().map(|v| text(v)).collect();
    sorted.dedup();
    assert_eq!(sorted.len(), 262144);
    let short = generate_ids(p("abcdefghij"));
    assert_eq!(short.len(), 64);
    assert_eq!(text(&short[63]), "abcdefghij_");
    assert_eq!(text(&completion(&p("abcdefgh"), 2)), "abcdefghaac");
}

#[test]
fn worker_actions() {
    let dispatch = Payload {
        op_code: OperationCode::TestRequestData,
        data: Data::TestRequestData(TestRequestData { id: p("aaaaaaab") }),
    };
    match worker_action(dispatch) {
        WorkerAction::StartBatch(v) => assert_eq!(text(&v), "aaaaaaab"),
        other => panic!("unexpected {:?}", other),
    }
    let ended = Payload {
        op_code: OperationCode::InvalidSession,
        data: Data::InvalidSession(InvalidSessionData {
            code: ErrorCode::UnsupportedClientVersion,
            description: String::new(),
            explanation: String::new(),
        }),
    };
    assert!(matches!(
        worker_action(ended),
        WorkerAction::SessionEnded { code: ErrorCode::UnsupportedClientVersion, exit: true }
    ));
    let timeout = Payload {
        op_code: OperationCode::InvalidSession,
        data: Data::InvalidSession(ErrorCode::SessionTimeout.populate()),
    };
    assert!(matches!(
        worker_action(timeout),
        WorkerAction::SessionEnded { code: ErrorCode::SessionTimeout, exit: false }
    ));
    let wrong = Payload { op_code: OperationCode::Identify, data: Data::Heartbeat };
    assert!(matches!(worker_action(wrong), WorkerAction::Unexpected));
    let odd = Payload { op_code: OperationCode::Heartbeat, data: Data::Heartbeat };
    assert!(matches!(worker_action(odd), WorkerAction::Malformed));
}

#[test]
fn statistics_rounding() {
    assert_eq!(get_statistics(10, 2, 0), (10, 2, 10));
    assert_eq!(get_statistics(10, 0, 4), (10, 0, 3));
    assert_eq!(get_statistics(10, 0, 3), (10, 0, 3));
    assert_eq!(get_statistics(7, 1, 2), (7, 1, 4));
}

#[test]
fn author_filter() {
    assert!(matches_author_filter("Some Author", &None));
    assert!(matches_author_filter("Some Author", &Some("AUTH".to_string())));
    assert!(!matches_author_filter("Some Author", &Some("other".to_string())));
    assert!(matches_folded("some author", Some("author")));
    assert!(!matches_folded("some author", Some("Author")));
    assert!(matches_folded("x", Some("")));
}

#[test]
fn terminal_link_format() {
    assert_eq!(terminal_link("https://e.x", "t"), "\x1B]8;;https://e.x\x1B\\t\x1B]8;;\x1B\\");
}

#[test]
fn aggregator_groups_interleaved_batches() {
    let mut agg = ResultsAggregator::new();
    let a = generate_ids(p("aaaaaaaa"));
    let b = generate_ids(p("bbbbbbbb"));
    let mut finished = Vec::new();
    for (i, (ia, ib)) in a.into_iter().zip(b.into_iter()).enumerate() {
        let ea = if i == 3 { VideoEvent::NotEmbeddable } else { VideoEvent::NotFound };
        if let Some(done) = agg.record(Video { event: ea, id: ia, video_data: None }) {
            finished.push(done);
        }
        let eb = if i % 100000 == 0 { VideoEvent::Success } else { VideoEvent::NotFound };
        let data = VideoData {
            title: format!("v{}", i),
            author_name: "n".to_string(),
            author_url: "u".to_string(),
        };
        if let Some(done) = agg.record(Video { event: eb, id: ib, video_data: Some(data) }) {
            finished.push(done);
        }
    }
    assert_eq!(finished.len(), 2);
    assert_eq!(text(&finished[0].id), "aaaaaaaa");
    assert_eq!(finished[0].positives.len(), 1);
    assert_eq!(text(&finished[0].positives[0].id), "aaaaaaaaaad");
    assert_eq!(text(&finished[1].id), "bbbbbbbb");
    assert_eq!(finished[1].positives.len(), 3);
    assert_eq!(finished[1].positives[2].video_data.as_ref().unwrap().title, "v200000");
}

#[test]
fn aggregator_keeps_batches_apart() {
    let mut agg = ResultsAggregator::new();
    let first = agg.record(Video { event: VideoEvent::Success, id: p("aaaaaaaaaaa"), video_data: None });
    assert!(first.is_none());
    let other = agg.record(Video { event: VideoEvent::NotFound, id: p("abaaaaaaaaa"), video_data: None });
    assert!(other.is_none());
}

#[test]
fn undecodable_metadata_is_retried() {
    assert_eq!(metadata_step(true), ProbeStep::Done(VideoEvent::Success));
    assert_eq!(metadata_step(false), ProbeStep::Retry(100));
}
