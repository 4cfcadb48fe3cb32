use portsmith_replay::replay::{
    replay, Action, Event, Exchange, Phase, ReplayConfig, ReplayReport, MAX_PAUSE_NANOS, READ_CHUNK,
};
use portsmith_replay::trace::{Direction, Record};

fn rec(ts: i64, dir: Direction, session: &str, payload: &[u8]) -> Record {
    Record {
        ts_nanos: ts,
        dir,
        session: session.to_string(),
        proto: "redis".to_string(),
        payload: payload.to_vec(),
    }
}

fn cfg(timing: bool) -> ReplayConfig {
    ReplayConfig {
        target: "127.0.0.1:6379".to_string(),
        read_timeout_nanos: 200_000_000,
        preserve_timing: timing,
        max_wait_nanos: 500_000_000,
    }
}

#[test]
fn default_config() {
    let c = ReplayConfig::default();
    assert_eq!(c.target, "");
    assert_eq!(c.read_timeout_nanos, 200_000_000);
    assert!(!c.preserve_timing);
    assert_eq!(c.max_wait_nanos, 500_000_000);
}

#[test]
fn empty_trace_finishes_at_once() {
    let recs: Vec<Record> = vec![];
    let c = cfg(false);
    let mut r = replay(&recs, &c);
    assert_eq!(r.phase(), Phase::Idle);
    assert!(matches!(r.step(Event::Start), Action::Finish));
    assert_eq!(r.phase(), Phase::Finished);
    let report = r.into_report();
    assert!(report.exchanges.is_empty());
    assert_eq!(report.errors, 0);
}

#[test]
fn sessions_in_first_appearance_order_and_only_requests_sent() {
    let recs = vec![
        rec(0, Direction::Request, "b", b"b1"),
        rec(1, Direction::Request, "a", b"a1"),
        rec(2, Direction::Response, "b", b"rb"),
        rec(3, Direction::Request, "b", b"b2"),
    ];
    let c = cfg(false);
    let mut r = replay(&recs, &c);
    let mut sent: Vec<Vec<u8>> = Vec::new();
    let mut connects = 0;
    let mut action = r.step(Event::Start);
    loop {
        action = match action {
            Action::Connect => {
                connects += 1;
                r.step(Event::Connected)
            }
            Action::Sleep { .. } => r.step(Event::Slept),
            Action::Send { payload } => {
                sent.push(payload);
                r.step(Event::Sent)
            }
            Action::Receive => r.step(Event::Received { data: b"ok".to_vec(), elapsed_nanos: 0 }),
            Action::Finish => break,
        };
    }
    assert_eq!(connects, 2);
    assert_eq!(sent, vec![b"b1".to_vec(), b"b2".to_vec(), b"a1".to_vec()]);
    let report = r.into_report();
    let sessions: Vec<&str> = report.exchanges.iter().map(|x| x.session.as_str()).collect();
    assert_eq!(sessions, vec!["b", "b", "a"]);
    assert_eq!(report.errors, 0);
    assert_eq!(
        report.summary(),
        "replayed 3 request(s), 0 error(s), sent 6 byte(s), received 6 byte(s)"
    );
}

#[test]
fn scripted_run_with_timing_and_failures() {
    let recs = vec![
        rec(0, Direction::Request, "a", b"PING\r\n"),
        rec(10, Direction::Response, "a", b"+PONG\r\n"),
        rec(100, Direction::Request, "a", b"GET k\r\n"),
        rec(200, Direction::Request, "a", b"never\r\n"),
        rec(5, Direction::Request, "b", b"x"),
    ];
    let c = cfg(true);
    let mut r = replay(&recs, &c);
    assert!(matches!(r.step(Event::Start), Action::Connect));
    match r.step(Event::Connected) {
        Action::Send { payload } => assert_eq!(payload, b"PING\r\n".to_vec()),
        other => panic!("{other:?}"),
    }
    assert!(matches!(r.step(Event::Sent), Action::Receive));
    // A full read within the wait window asks for more.
    assert!(matches!(
        r.step(Event::Received { data: vec![b'+'; READ_CHUNK], elapsed_nanos: 1 }),
        Action::Receive
    ));
    // A short read completes the response; the next request waits for the
    // gap to the record before it (the response at ts 10).
    match r.step(Event::Received { data: b"END".to_vec(), elapsed_nanos: 2 }) {
        Action::Sleep { nanos } => assert_eq!(nanos, 90),
        other => panic!("{other:?}"),
    }
    // An event that does not fit changes nothing.
    assert!(matches!(r.step(Event::Sent), Action::Sleep { nanos: 90 }));
    assert!(matches!(r.step(Event::Slept), Action::Send { .. }));
    // A failed write ends the session.
    assert!(matches!(
        r.step(Event::SendFailed { reason: "broken pipe".to_string() }),
        Action::Connect
    ));
    assert!(matches!(
        r.step(Event::ConnectFailed { reason: "refused".to_string() }),
        Action::Finish
    ));
    assert_eq!(r.phase(), Phase::Finished);
    assert!(matches!(r.step(Event::Start), Action::Finish));
    let report: ReplayReport = r.into_report();
    assert_eq!(report.errors, 2);
    assert_eq!(report.exchanges.len(), 3);
    let x0: &Exchange = &report.exchanges[0];
    assert_eq!(x0.request, b"PING\r\n".to_vec());
    assert_eq!(x0.response.len(), READ_CHUNK + 3);
    assert!(x0.error.is_none());
    assert_eq!(report.exchanges[1].request, b"GET k\r\n".to_vec());
    assert_eq!(report.exchanges[1].error.as_deref(), Some("write: broken pipe"));
    assert_eq!(report.exchanges[2].session, "b");
    assert!(report.exchanges[2].request.is_empty());
    assert_eq!(
        report.exchanges[2].error.as_deref(),
        Some("connect 127.0.0.1:6379: refused")
    );
    assert_eq!(
        report.summary(),
        format!(
            "replayed 3 request(s), 2 error(s), sent 13 byte(s), received {} byte(s)",
            READ_CHUNK + 3
        )
    );
}

#[test]
fn full_reads_stop_after_max_wait() {
    let recs = vec![rec(0, Direction::Request, "a", b"q")];
    let c = cfg(false);
    let mut r = replay(&recs, &c);
    r.step(Event::Start);
    r.step(Event::Connected);
    r.step(Event::Sent);
    assert!(matches!(
        r.step(Event::Received { data: vec![0; READ_CHUNK], elapsed_nanos: 499_999_999 }),
        Action::Receive
    ));
    assert!(matches!(
        r.step(Event::Received { data: vec![0; READ_CHUNK], elapsed_nanos: 500_000_000 }),
        Action::Finish
    ));
    assert_eq!(r.report().exchanges[0].response.len(), 2 * READ_CHUNK);
}

#[test]
fn read_failure_and_end_of_stream_complete_the_response() {
    let recs = vec![
        rec(0, Direction::Request, "a", b"1"),
        rec(1, Direction::Request, "a", b"2"),
    ];
    let c = cfg(false);
    let mut r = replay(&recs, &c);
    r.step(Event::Start);
    r.step(Event::Connected);
    r.step(Event::Sent);
    assert!(matches!(r.step(Event::ReceiveFailed), Action::Send { .. }));
    r.step(Event::Sent);
    assert!(matches!(
        r.step(Event::Received { data: vec![], elapsed_nanos: 0 }),
        Action::Finish
    ));
    assert_eq!(r.report().exchanges.len(), 2);
    assert_eq!(r.report().errors, 0);
}

#[test]
fn pauses_are_capped_and_only_positive() {
    let recs = vec![
        rec(i64::MIN, Direction::Response, "a", b""),
        rec(i64::MAX, Direction::Request, "a", b"late"),
        rec(0, Direction::Request, "a", b"early"),
    ];
    let c = cfg(true);
    let mut r = replay(&recs, &c);
    r.step(Event::Start);
    match r.step(Event::Connected) {
        Action::Sleep { nanos } => assert_eq!(nanos, MAX_PAUSE_NANOS),
        other => panic!("{other:?}"),
    }
    r.step(Event::Slept);
    r.step(Event::Sent);
    // The next record is earlier: no pause.
    match r.step(Event::ReceiveFailed) {
        Action::Send { payload } => assert_eq!(payload, b"early".to_vec()),
        other => panic!("{other:?}"),
    }
}

#[test]
fn summary_of_empty_report() {
    let report = ReplayReport::default();
    assert_eq!(
        report.summary(),
        "replayed 0 request(s), 0 error(s), sent 0 byte(s), received 0 byte(s)"
    );
}

#[test]
fn at_most_one_error_per_session() {
    let recs = vec![
        rec(0, Direction::Request, "a", b"1"),
        rec(1, Direction::Request, "a", b"2"),
        rec(2, Direction::Request, "b", b"3"),
    ];
    let c = cfg(false);
    let mut r = replay(&recs, &c);
    r.step(Event::Start);
    r.step(Event::Connected);
    // The first write fails: session "a" ends there, its second request is not sent.
    assert!(matches!(r.step(Event::SendFailed { reason: "x".into() }), Action::Connect));
    r.step(Event::Connected);
    r.step(Event::Sent);
    assert!(matches!(r.step(Event::ReceiveFailed), Action::Finish));
    let report = r.into_report();
    assert_eq!(report.errors, 1);
    let names: Vec<&str> = report.exchanges.iter().map(|x| x.session.as_str()).collect();
    assert_eq!(names, vec!["a", "b"]);
}
