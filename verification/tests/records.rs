use loom_rt::delivery::{degraded_report, delivery_failure, dispatch_log_path, write_dispatch_log};
use loom_rt::dispatch::{DispatchReport, FeatureOutcome};
use loom_rt::order::{text_before, SortedMap};
use loom_rt::state::{Json, StatusSnapshot};

fn outcome(id: &str, status: &str) -> FeatureOutcome {
    FeatureOutcome {
        feature_id: id.to_string(),
        worker_identity: format!("{id}-w0"),
        verdict: "unknown".to_string(),
        worker_exit_status: status.to_string(),
        exit_code: 1,
        duration_ms: 0,
        stdout_path: String::new(),
        drain_truncated: false,
        error: None,
        rescue_ref: None,
    }
}

fn object(members: Vec<(&str, Json)>) -> Json {
    let mut map: SortedMap<Json> = SortedMap::new();
    for (name, value) in members {
        map.insert(name.to_string(), value);
    }
    Json::Object(map)
}

#[test]
fn encodes_simple_object() {
    let s = object(vec![("a", Json::U64(1)), ("b", Json::Str("hi".to_string()))])
        .to_string_compact();
    assert_eq!(s, r#"{"a":1,"b":"hi"}"#);
}

#[test]
fn escapes_strings() {
    let s = Json::Str("a\"b\nc".to_string()).to_string_compact();
    assert_eq!(s, r#""a\"b\nc""#);
}

#[test]
fn every_value_is_written() {
    let value = object(vec![
        ("z", Json::Array(vec![Json::Null, Json::Bool(true), Json::I64(-7)])),
        ("a", Json::Array(vec![])),
        ("m", object(vec![])),
        ("c", Json::Str("\\\t\r\u{1f}\u{8}é/".to_string())),
    ]);
    assert_eq!(
        value.to_string_compact(),
        "{\"a\":[],\"c\":\"\\\\\\t\\r\\u001f\\u0008é/\",\"m\":{},\"z\":[null,true,-7]}"
    );
    assert_eq!(
        object(vec![("b", Json::Array(vec![Json::U64(u64::MAX)])), ("a", Json::I64(i64::MIN))])
            .to_string_pretty(),
        "{\n  \"a\": -9223372036854775808,\n  \"b\": [\n    18446744073709551615\n  ]\n}"
    );
}

#[test]
fn written_values_read_back() {
    let value = object(vec![
        ("list", Json::Array(vec![Json::Null, Json::Array(vec![]), object(vec![]), Json::I64(-70)])),
        ("a\"b", Json::Str("x\ny".to_string())),
        ("no", Json::Bool(false)),
        ("zero", Json::U64(0)),
    ]);
    let pretty: serde_json::Value = serde_json::from_str(&value.to_string_pretty()).unwrap();
    let compact: serde_json::Value = serde_json::from_str(&value.to_string_compact()).unwrap();
    assert_eq!(pretty, compact);
    assert_eq!(compact["list"][3], -70);
    assert!(compact["list"][0].is_null());
    assert_eq!(compact["list"][1].as_array().unwrap().len(), 0);
    assert_eq!(compact["list"][2].as_object().unwrap().len(), 0);
    assert_eq!(compact["a\"b"], "x\ny");
    assert_eq!(compact["no"], false);
    assert_eq!(compact["zero"], 0);
    assert!(!value.to_string_compact().contains(' '));
}

#[test]
fn names_ascend_at_every_depth() {
    let inner = || object(vec![("b", Json::Null), ("a", Json::Null)]);
    let value = object(vec![("y", Json::Array(vec![inner()])), ("x", inner())]);
    assert_eq!(
        value.to_string_compact(),
        "{\"x\":{\"a\":null,\"b\":null},\"y\":[{\"a\":null,\"b\":null}]}"
    );
}

#[test]
fn written_strings_read_back() {
    for text in ["", "plain", "\"\\\n\r\t", "\u{0}\u{1f}\u{7f}é\u{10ffff}", "</script>"] {
        let json = Json::Str(text.to_string()).to_string_compact();
        let value: serde_json::Value = serde_json::from_str(&json).unwrap();
        assert_eq!(value.as_str(), Some(text));
    }
}

#[test]
fn status_snapshot_writes_file() {
    let mut features: SortedMap<String> = SortedMap::new();
    features.insert("F-001".to_string(), "done".to_string());
    features.insert("F-002".to_string(), "in_progress".to_string());
    let snap = StatusSnapshot { phase: "dispatch".to_string(), cycle: 2, features };
    let file = snap.write_to("/ws/.loom", 1_700_000_000_000);
    assert_eq!(file.path, "/ws/.loom/status.json");
    assert!(file.contents.contains("\"schema\""));
    assert!(file.contents.contains("\"phase\": \"dispatch\""));
    assert!(file.contents.contains("\"F-001\""));
    assert_eq!(
        file.contents,
        "{\n  \"cycle\": 2,\n  \"features\": {\n    \"F-001\": \"done\",\n    \
         \"F-002\": \"in_progress\"\n  },\n  \"phase\": \"dispatch\",\n  \"schema\": 1,\n  \
         \"updated_at_ms\": 1700000000000\n}"
    );
}

#[test]
fn deliver_writes_degraded_log_on_loop_error() {
    let degraded = degraded_report("simulated disk error");
    assert_eq!(degraded.outcomes.len(), 1);
    assert_eq!(degraded.outcomes[0].feature_id, "<loom>");
    assert_eq!(degraded.outcomes[0].worker_exit_status, "error");
    let log = write_dispatch_log(&degraded, "/ws/.loom", "1700000000000-42");
    assert!(log.contents.contains("<loom>"));
    assert!(log.contents.contains("simulated disk error"));
}

#[test]
fn dispatch_log_records_rescue_ref() {
    let mut kept = outcome("F-018", "timeout");
    kept.rescue_ref = Some("refs/heads/loom-rescue/F-018-timeout".to_string());
    let report = DispatchReport {
        started_at_ms: 0,
        elapsed_ms: 0,
        dispatched_count: 1,
        outcomes: vec![kept],
    };
    let logged = write_dispatch_log(&report, "/ws/.loom", "1700000000000-7").contents;
    assert!(logged.contains("rescue_ref"));
    assert!(logged.contains("refs/heads/loom-rescue/F-018-timeout"));
}

#[test]
fn an_empty_report_has_a_log() {
    let report =
        DispatchReport { started_at_ms: 0, elapsed_ms: 0, dispatched_count: 0, outcomes: vec![] };
    let log = write_dispatch_log(&report, "/ws/.loom", "1700000000000-2");
    assert_eq!(log.path, "/ws/.loom/dispatch-1700000000000-2.log");
    assert_eq!(log.path, dispatch_log_path("/ws/.loom", "1700000000000-2"));
    assert!(!log.contents.is_empty());
}

#[test]
fn writes_dispatch_log() {
    let mut failed = outcome("F-001", "fail");
    failed.duration_ms = 200;
    failed.stdout_path = "/tmp/out".to_string();
    let report = DispatchReport {
        started_at_ms: 1_000_000,
        elapsed_ms: 250,
        dispatched_count: 1,
        outcomes: vec![failed],
    };
    let content = write_dispatch_log(&report, "/ws/.loom", "1700000000000-3").contents;
    assert!(content.contains("\"F-001\""));
    assert!(content.contains("\"verdict\": \"unknown\""));
    assert!(content.contains("\"worker_exit_status\": \"fail\""));
    assert!(content.contains("\"dispatched_count\": 1"));
    let value: serde_json::Value = serde_json::from_str(&content).unwrap();
    assert_eq!(value["started_at_ms"], 1_000_000);
    assert_eq!(value["elapsed_ms"], 250);
    assert_eq!(value["outcomes"][0]["duration_ms"], 200);
    assert_eq!(value["outcomes"][0]["exit_code"], 1);
    assert_eq!(value["outcomes"][0]["stdout_path"], "/tmp/out");
    assert!(value["outcomes"][0]["error"].is_null());
    assert!(value["outcomes"][0]["rescue_ref"].is_null());
}

#[test]
fn the_operator_is_told_of_a_failed_delivery() {
    assert_eq!(
        delivery_failure("/blocker/loom", "Not a directory"),
        "loom: FAILED to write dispatch log under /blocker/loom — Not a directory"
    );
}

#[test]
fn texts_are_ordered_by_code_point() {
    let words = ["", "F-001", "F-001-a", "F-002", "F-01", "f", "é", "\u{10ffff}"];
    for (i, a) in words.iter().enumerate() {
        for (k, b) in words.iter().enumerate() {
            assert_eq!(text_before(a, b), i < k);
            assert_eq!(text_before(a, b), a < b);
        }
    }
}

#[test]
fn maps_keep_one_entry_for_a_key() {
    let mut map: SortedMap<u32> = SortedMap::new();
    map.insert("b".to_string(), 1);
    map.insert("a".to_string(), 2);
    map.insert("b".to_string(), 3);
    assert_eq!(map.entries, vec![("a".to_string(), 2), ("b".to_string(), 3)]);
    assert_eq!(map.position("b"), Some(1));
    assert_eq!(map.position("c"), None);
}
