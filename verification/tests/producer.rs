use eventhub_http_roundrobin::producer::{
    is_success, opening_line, Outcome, Producer, Report, Step,
};
use eventhub_http_roundrobin::request::send_request;

fn created() -> Outcome {
    Outcome::Answered {
        code: 201,
        status: "201 Created".to_string(),
    }
}

fn unauthorized() -> Outcome {
    Outcome::Answered {
        code: 401,
        status: "401 Unauthorized".to_string(),
    }
}

fn success(report: Report) -> String {
    match report {
        Report::Success(line) => line,
        Report::Failure(line) => panic!("failure: {line}"),
    }
}

fn failure(report: Report) -> String {
    match report {
        Report::Failure(line) => line,
        Report::Success(line) => panic!("success: {line}"),
    }
}

#[test]
fn bounded_run_sends_as_many_as_asked_for() {
    let mut producer = Producer::new(30, 250);
    let mut sent = Vec::new();
    while producer.next_step(false) == Step::Send {
        let event = producer.event(Some(5));
        assert!(producer.can_record(event.body_len, &created()));
        success(producer.record(event.body_len, &created()));
        sent.push(event.seq);
    }
    assert_eq!(sent, (0..30).collect::<Vec<u64>>());
    assert_eq!(producer.ok, 30);
    assert_eq!(producer.exit_code(), 0);
}

#[test]
fn unbounded_run_goes_on_until_stopped() {
    let mut producer = Producer::new(0, 0);
    for _ in 0..100 {
        assert_eq!(producer.next_step(false), Step::Send);
        assert_eq!(producer.next_step(true), Step::Finish);
        producer.record(1, &created());
    }
    assert_eq!(producer.seq, 100);
    assert_eq!(producer.total_bytes, 100);
}

#[test]
fn event_bodies() {
    let producer = Producer::new(1, 0);
    let event = producer.event(Some(1_700_000_000_123));
    assert_eq!(
        event.body,
        r#"{"seq":0,"sentAtMs":1700000000123,"note":"no partition key; expect round-robin"}"#
    );
    assert_eq!(event.body_len, event.body.len() as u64);
    let event = producer.event(None);
    assert_eq!(
        event.body,
        r#"{"seq":0,"sentAtMs":0,"note":"no partition key; expect round-robin"}"#
    );
    let mut producer = Producer::new(0, 0);
    producer.record(0, &created());
    let event = producer.event(Some(u128::MAX));
    assert_eq!(event.seq, 1);
    assert!(event
        .body
        .starts_with(r#"{"seq":1,"sentAtMs":340282366920938463463374607431768211455,"#));
    assert_eq!(event.body_len, event.body.len() as u64);
}

#[test]
fn reports_and_counters() {
    let mut producer = Producer::new(0, 0);
    assert_eq!(
        success(producer.record(80, &created())),
        "seq      0 -> 201 Created | +80 B | total 80 B / 1 events"
    );
    assert_eq!(
        failure(producer.record(81, &unauthorized())),
        "seq      1 -> 401 Unauthorized (NOT accepted)"
    );
    let broken = Outcome::Failed {
        error: "HTTP request to Event Hubs failed: refused".to_string(),
    };
    assert_eq!(
        failure(producer.record(82, &broken)),
        "seq      2 -> error: HTTP request to Event Hubs failed: refused"
    );
    assert_eq!(
        success(producer.record(7, &created())),
        "seq      3 -> 201 Created | +7 B | total 87 B / 2 events"
    );
    assert_eq!(
        (producer.ok, producer.failed, producer.total_bytes, producer.seq),
        (2, 2, 87, 4)
    );
    assert_eq!(
        producer.summary(),
        "\nDone. 2 accepted, 2 failed, 87 bytes delivered."
    );
    assert_eq!(producer.exit_code(), 1);
}

#[test]
fn long_numbers_are_not_cut() {
    let mut producer = Producer::new(0, 0);
    producer.seq = 1_234_567;
    producer.ok = 1_234_567;
    assert_eq!(
        failure(producer.record(0, &unauthorized())),
        "seq 1234567 -> 401 Unauthorized (NOT accepted)"
    );
}

#[test]
fn full_counters_take_no_more() {
    let mut producer = Producer::new(0, 0);
    producer.total_bytes = u64::MAX - 1;
    assert!(producer.can_record(1, &created()));
    assert!(!producer.can_record(2, &created()));
    assert!(producer.can_record(2, &unauthorized()));
    producer.seq = u64::MAX;
    assert!(!producer.can_record(0, &unauthorized()));
}

#[test]
fn pauses() {
    assert_eq!(Producer::new(0, 250).pause_ms(false), Some(250));
    assert_eq!(Producer::new(0, 250).pause_ms(true), None);
    assert_eq!(Producer::new(0, 0).pause_ms(false), None);
}

#[test]
fn opening_lines() {
    assert_eq!(
        opening_line(30, "https://mynamespace.servicebus.windows.net/myhub"),
        "Producing 30 event(s) to https://mynamespace.servicebus.windows.net/myhub (no partition key -> broker round-robins)\n"
    );
    assert_eq!(
        opening_line(0, "https://ns/hub"),
        "Producing continuously to https://ns/hub (no partition key -> broker round-robins). Ctrl-C to stop.\n"
    );
}

#[test]
fn success_is_what_the_client_calls_success() {
    for code in 100..1000 {
        let status = reqwest::StatusCode::from_u16(code).unwrap();
        assert_eq!(is_success(code), status.is_success());
    }
}

#[test]
fn requests_carry_no_broker_properties() {
    let request = send_request("https://ns/hub/messages", "token", "{}".to_string());
    assert_eq!(request.url, "https://ns/hub/messages");
    assert_eq!(request.body, "{}");
    let headers: Vec<(&str, &str)> = request
        .headers
        .iter()
        .map(|h| (h.name.as_str(), h.value.as_str()))
        .collect();
    assert_eq!(
        headers,
        [("authorization", "token"), ("content-type", "application/json")]
    );
    assert_eq!(reqwest::header::AUTHORIZATION.as_str(), "authorization");
    assert_eq!(reqwest::header::CONTENT_TYPE.as_str(), "content-type");
    assert!(!headers.iter().any(|(name, _)| name.eq_ignore_ascii_case("BrokerProperties")));
}
