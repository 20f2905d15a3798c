use broker::config::{AppConfig, DEFAULT_MAX_CONNECTIONS};
use broker::consumer::Command as ConsumerCommand;
use broker::ingress::{
    fetch_step, plan_line, produce_step, record, FetchOutcome, ProduceOutcome, Step,
    MAX_MSG_BYTES,
};
use broker::numeric::{parse_u64_bytes, parse_u64_chars, parse_usize_chars, u64_to_string};
use broker::protocol::Response;
use broker::queue::{classify_send, EnqueueResult, SendOutcome, QUEUE_CAPACITY};
use broker::service::{should_prune, Service, PRUNE_INTERVAL};
use broker::stats::Stats;

#[test]
fn decimal_rendering_exact() {
    assert_eq!(u64_to_string(0), "0");
    assert_eq!(u64_to_string(7), "7");
    assert_eq!(u64_to_string(1024), "1024");
    assert_eq!(u64_to_string(u64::MAX), "18446744073709551615");
}

#[test]
fn decimal_parsing_bounds() {
    let max = b"18446744073709551615";
    assert_eq!(parse_u64_bytes(max, 0, max.len()), Some(u64::MAX));
    let over = b"18446744073709551616";
    assert_eq!(parse_u64_bytes(over, 0, over.len()), None);
    assert_eq!(parse_u64_bytes(b"", 0, 0), None);
    assert_eq!(parse_u64_chars("0007", 0, 4), Some(7));
    assert_eq!(parse_u64_chars("+7", 0, 2), None);
    assert_eq!(parse_usize_chars("256", 0, 3), Some(256));
    assert_eq!(parse_usize_chars("2x6", 0, 3), None);
}

#[test]
fn oversize_line_is_refused_but_connection_survives() {
    let mut line = String::from("PUB t ");
    line.push_str(&"x".repeat(70_000));
    assert!(line.len() > MAX_MSG_BYTES);
    match plan_line(&line) {
        Step::Reply { resp, keep_open } => {
            assert_eq!(resp, Response::ErrTooLarge);
            assert!(keep_open);
        }
        _ => panic!("expected a reply step"),
    }
    match plan_line("PING") {
        Step::Reply { resp, keep_open } => {
            assert_eq!(resp, Response::Okay);
            assert!(keep_open);
        }
        _ => panic!("expected a reply step"),
    }
}

#[test]
fn ping_is_a_pure_reply() {
    match plan_line("PING") {
        Step::Reply { resp, keep_open } => {
            assert_eq!(resp, Response::Okay);
            assert!(keep_open);
        }
        _ => panic!("a ping must not reach the queue or the log"),
    }
}

#[test]
fn dispatch_hands_on_produce_and_fetch() {
    match plan_line("PUB t payload here") {
        Step::StartProduce { topic, payload } => {
            assert_eq!(topic, "t");
            assert_eq!(payload, "payload here");
        }
        _ => panic!("expected a produce step"),
    }
    match plan_line("FETCH t 3 9") {
        Step::StartFetch { topic, from, limit } => {
            assert_eq!(topic, "t");
            assert_eq!(from, 3);
            assert_eq!(limit, 9);
        }
        _ => panic!("expected a fetch step"),
    }
    match plan_line("GARBAGE") {
        Step::Reply { resp, keep_open } => {
            assert_eq!(resp, Response::Nack);
            assert!(keep_open);
        }
        _ => panic!("expected a reply step"),
    }
}

#[test]
fn produce_outcomes_map_to_replies() {
    assert_eq!(
        produce_step(ProduceOutcome::Committed),
        (Some(Response::Ack), true)
    );
    assert_eq!(
        produce_step(ProduceOutcome::CommitDropped),
        (Some(Response::ErrWal), false)
    );
    assert_eq!(
        produce_step(ProduceOutcome::QueueFull),
        (Some(Response::Nack), true)
    );
    assert_eq!(produce_step(ProduceOutcome::QueueClosed), (None, false));
}

#[test]
fn fetch_outcomes_map_to_replies() {
    assert_eq!(
        fetch_step(FetchOutcome::Delivered),
        (Some(Response::Okay), true)
    );
    assert_eq!(
        fetch_step(FetchOutcome::SendFailed),
        (Some(Response::ErrWal), false)
    );
    assert_eq!(
        fetch_step(FetchOutcome::ReplyDropped),
        (Some(Response::ErrWal), false)
    );
}

#[test]
fn dispatch_passes_payload_verbatim() {
    match plan_line("PUB t tail\t ") {
        Step::StartProduce { topic, payload } => {
            assert_eq!(topic, "t");
            assert_eq!(payload, "tail\t ");
        }
        _ => panic!("expected a produce step"),
    }
}

#[test]
fn queue_capacity_and_classification() {
    assert_eq!(QUEUE_CAPACITY, 100);
    assert_eq!(
        classify_send(SendOutcome::Sent, 5),
        EnqueueResult::Enqueued(5)
    );
    assert_eq!(classify_send(SendOutcome::Full, 5), EnqueueResult::Full);
    assert_eq!(classify_send(SendOutcome::Closed, 5), EnqueueResult::Closed);
}

#[test]
fn stats_count_and_issue_ids() {
    let mut s = Stats::default();
    assert_eq!(s.new_id(), 0);
    assert_eq!(s.new_id(), 1);
    assert_eq!(s.new_id(), 2);
    s.inc_ack();
    s.inc_ack();
    s.inc_nack();
    s.inc_err_wal();
    s.inc_connections();
    assert_eq!(s.snapshot(), (2, 1, 1, 1));
    assert_eq!(s.next_id, 3);
}

#[test]
fn record_counts_only_counted_replies() {
    let mut s = Stats::default();
    record(&mut s, &Response::Ack);
    record(&mut s, &Response::Nack);
    record(&mut s, &Response::ErrWal);
    record(&mut s, &Response::Okay);
    record(&mut s, &Response::ErrTimeout);
    record(&mut s, &Response::ErrBusy);
    record(&mut s, &Response::ErrTooLarge);
    assert_eq!(s.snapshot(), (1, 1, 1, 0));
}

#[test]
fn capacity_gate_and_pruning() {
    let conf = AppConfig {
        node_id: "n".to_string(),
        bind_addr: "b".to_string(),
        data_dir: "d".to_string(),
        max_connections: 3,
    };
    let svc = Service::new(&conf);
    assert!(!svc.at_capacity(2));
    assert!(svc.at_capacity(3));
    assert!(svc.at_capacity(4));
    assert_eq!(PRUNE_INTERVAL, 64);
    assert!(!should_prune(1));
    assert!(!should_prune(63));
    assert!(should_prune(64));
    assert!(should_prune(128));
}

#[test]
fn config_defaults() {
    let c = AppConfig::default();
    assert_eq!(c.node_id, "node-1");
    assert_eq!(c.bind_addr, "[::]:7001");
    assert_eq!(c.data_dir, "./data");
    assert_eq!(c.max_connections, 256);
    assert_eq!(DEFAULT_MAX_CONNECTIONS, 256);
}

#[test]
fn config_resolution() {
    let c = AppConfig::resolve(
        Some("0.0.0.0:9000".to_string()),
        None,
        Some("node-7".to_string()),
        Some("512".to_string()),
    );
    assert_eq!(c.bind_addr, "0.0.0.0:9000");
    assert_eq!(c.data_dir, "./data");
    assert_eq!(c.node_id, "node-7");
    assert_eq!(c.max_connections, 512);

    let bad = AppConfig::resolve(None, None, None, Some("lots".to_string()));
    assert_eq!(bad.max_connections, 256);
}

#[test]
fn consumer_commands_parse() {
    assert!(matches!(ConsumerCommand::parse("PING"), ConsumerCommand::Ping));
    match ConsumerCommand::parse("ECHO hi there") {
        ConsumerCommand::Echo(text) => assert_eq!(text, "hi there"),
        _ => panic!("expected an echo"),
    }
    assert!(matches!(
        ConsumerCommand::parse("NOPE"),
        ConsumerCommand::Unknown(_)
    ));
}
