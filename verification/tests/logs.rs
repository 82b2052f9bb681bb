use vigild::logs::{
    broadcast_capacity, follows, next_push_backoff, sort_entries_by_time, text_line, Buffer, LogEntry, LogStore,
    LogStream, LogTime, INITIAL_PUSH_BACKOFF_MS,
};
use vigild::query::{parse_names, parse_services, split_names, LogFormat, LogsQuery, NamesQuery};

fn entry_at(secs: i64, service: &str, msg: &str) -> LogEntry {
    LogEntry {
        timestamp: LogTime { secs, nanos: 0 },
        service: service.to_string(),
        stream: LogStream::Stdout,
        message: msg.to_string(),
    }
}

fn messages(v: &[LogEntry]) -> Vec<&str> {
    v.iter().map(|e| e.message.as_str()).collect()
}

#[test]
fn ring_buffer_evicts_oldest_when_full() {
    let mut store = LogStore::new(3);
    for i in 0..5 {
        store.push(entry_at(i, "svc", &format!("msg{i}")));
    }
    let tail = store.tail(&["svc".to_string()], 100);
    assert_eq!(messages(&tail), vec!["msg2", "msg3", "msg4"]);
}

#[test]
fn tail_returns_at_most_n_lines() {
    let mut store = LogStore::new(100);
    for i in 0..20 {
        store.push(entry_at(i, "svc", &format!("line{i}")));
    }
    let tail = store.tail(&["svc".to_string()], 5);
    assert_eq!(tail.len(), 5);
    assert_eq!(tail.last().unwrap().message, "line19");
}

#[test]
fn tail_filters_and_merges_services_by_time() {
    let mut store = LogStore::new(100);
    store.push(entry_at(3, "alpha", "a3"));
    store.push(entry_at(1, "beta", "b1"));
    store.push(entry_at(2, "alpha", "a2"));
    assert_eq!(messages(&store.tail(&[], 100)), vec!["b1", "a2", "a3"]);
    let alpha = store.tail(&["alpha".to_string()], 100);
    assert_eq!(messages(&alpha), vec!["a2", "a3"]);
    assert!(store.tail(&["nope".to_string()], 100).is_empty());
    assert!(store.tail(&[], 0).is_empty());
}

#[test]
fn tail_on_empty_store_returns_empty() {
    let store = LogStore::new(100);
    assert!(store.tail(&[], 10).is_empty());
    assert!(store.tail(&["svc".to_string()], 10).is_empty());
}

#[test]
fn buffer_keeps_newest() {
    let mut b = Buffer::new(2);
    b.push(entry_at(1, "s", "1"));
    b.push(entry_at(2, "s", "2"));
    b.push(entry_at(3, "s", "3"));
    assert_eq!(messages(&b.snapshot()), vec!["2", "3"]);
}

#[test]
fn sort_is_stable_by_time() {
    let v = vec![entry_at(2, "s", "x"), entry_at(1, "s", "y"), entry_at(2, "s", "z")];
    assert_eq!(messages(&sort_entries_by_time(&v)), vec!["y", "x", "z"]);
}

#[test]
fn follow_filter_and_text_form() {
    assert!(follows(&[], "svc"));
    assert!(follows(&["svc".to_string()], "svc"));
    assert!(!follows(&["other".to_string()], "svc"));
    assert_eq!(text_line(&entry_at(0, "web", "hello")), "[web] hello");
}

#[test]
fn push_backoff_doubles_up_to_thirty_seconds() {
    assert_eq!(INITIAL_PUSH_BACKOFF_MS, 500);
    assert_eq!(next_push_backoff(500), 1000);
    assert_eq!(next_push_backoff(16_000), 30_000);
    assert_eq!(next_push_backoff(30_000), 30_000);
}

#[test]
fn broadcast_capacity_is_clamped() {
    assert_eq!(broadcast_capacity(10), 64);
    assert_eq!(broadcast_capacity(1000), 500);
    assert_eq!(broadcast_capacity(100_000), 4096);
}

#[test]
fn name_lists_split_on_commas() {
    assert_eq!(split_names(" a, b ,,c "), vec!["a", "b", "c"]);
    assert!(split_names("").is_empty());
    assert_eq!(parse_names(&NamesQuery { names: Some("x,y".to_string()) }), vec!["x", "y"]);
    assert!(parse_names(&NamesQuery { names: None }).is_empty());
    let q = LogsQuery { services: Some("web".to_string()), n: Some(5), format: Some(LogFormat::Text) };
    assert_eq!(parse_services(&q), vec!["web"]);
    assert_eq!(LogFormat::default_format(), LogFormat::Json);
}
