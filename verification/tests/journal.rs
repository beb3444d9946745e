use loom_rt::delivery::write_dispatch_log;
use loom_rt::dispatch::DispatchReport;
use loom_rt::journal::{append, mint_run_id, JournalRecord, RunJournal};
use loom_rt::moment::Moment;
use loom_rt::paths::file_name;
use loom_rt::recovery::{journal_run_id, recover_orphan_runs};

const NOW: Moment = Moment { secs: 1_700_000_000, nanos: 123_999_999 };

fn journal() -> RunJournal {
    let (looked, orphans) = recover_orphan_runs(&vec![], "/ws/.loom");
    assert!(orphans.is_empty());
    RunJournal::create("/ws/.loom", NOW, 42, looked)
}

fn empty_report() -> DispatchReport {
    DispatchReport { started_at_ms: 0, elapsed_ms: 0, dispatched_count: 0, outcomes: vec![] }
}

fn parsed(line: &str) -> serde_json::Value {
    serde_json::from_str(line).unwrap()
}

#[test]
fn mint_run_id_has_millis_pid_shape() {
    let id = mint_run_id(NOW, 42);
    let (ms, pid) = id.split_once('-').unwrap();
    assert!(ms.parse::<u128>().is_ok());
    assert!(pid.parse::<u32>().is_ok());
    assert_eq!(id, "1700000000123-42");
    assert_eq!(mint_run_id(Moment { secs: -5, nanos: 0 }, 7), "0-7");
}

#[test]
fn append_writes_exactly_n_well_formed_ndjson_records() {
    let j = journal();
    let body: String = [
        append(&j.worker_start("F-001", 1)),
        append(&j.rescue_ref_written("F-001", "refs/heads/loom-rescue/F-001-timeout", 2)),
        append(&j.worker_finish("F-001", "timeout", "unknown", 3)),
    ]
    .concat();
    let lines: Vec<&str> = body.lines().collect();
    assert_eq!(lines.len(), 3);
    for line in &lines {
        let v = parsed(line);
        assert_eq!(v["run_id"], j.run_id.as_str());
        assert_eq!(v["feature_id"], "F-001");
        assert!(v["ts_ms"].is_number());
    }
    let v0 = parsed(lines[0]);
    assert_eq!(v0["event"], "worker-start");
    assert!(v0.get("worker_exit_status").is_none());
    let v1 = parsed(lines[1]);
    assert_eq!(v1["event"], "rescue-ref-written");
    assert_eq!(v1["ref_name"], "refs/heads/loom-rescue/F-001-timeout");
    let v2 = parsed(lines[2]);
    assert_eq!(v2["event"], "worker-finish");
    assert_eq!(v2["worker_exit_status"], "timeout");
    assert_eq!(v2["verdict"], "unknown");
}

#[test]
fn journal_append_lossless_over_fifty_records() {
    let j = journal();
    let n: usize = 60;
    let mut body = String::new();
    for i in 0..n {
        body.push_str(&append(&j.worker_start(&format!("F-{i:03}"), 1)));
    }
    let lines: Vec<&str> = body.lines().collect();
    assert_eq!(lines.len(), n);
    for (i, line) in lines.iter().enumerate() {
        let v = parsed(line);
        assert_eq!(v["event"], "worker-start");
        assert_eq!(v["feature_id"], format!("F-{i:03}").as_str());
        assert_eq!(v["run_id"], j.run_id.as_str());
    }
}

#[test]
fn run_id_shared_across_filenames() {
    let j = journal();
    let journal_name = file_name(&j.path).unwrap();
    assert!(journal_name.contains(&j.run_id));
    let log = write_dispatch_log(&empty_report(), "/ws/.loom", &j.run_id);
    let log_name = file_name(&log.path).unwrap();
    assert!(log_name.contains(&j.run_id));
    assert!(j.run_id.contains('-'));
}

#[test]
fn dispatch_log_and_journal_share_one_run_id() {
    let j = journal();
    let log = write_dispatch_log(&empty_report(), "/ws/.loom", &j.run_id);
    let jname = file_name(&j.path).unwrap();
    let dname = file_name(&log.path).unwrap();
    assert!(jname.contains(&j.run_id));
    assert!(dname.contains(&j.run_id));
    assert_eq!(jname, format!("journal-{}.ndjson", j.run_id));
    assert_eq!(dname, format!("dispatch-{}.log", j.run_id));
}

#[test]
fn worker_finish_opaque_status() {
    for status in ["pass", "fail", "timeout", "cancelled", "error", "panic"] {
        let line = append(&journal().worker_finish("F-001", status, "unknown", 9));
        let v = parsed(&line);
        assert_eq!(v["event"], "worker-finish");
        assert_eq!(v["worker_exit_status"], status);
    }
}

#[test]
fn a_record_is_one_line_whatever_its_texts_hold() {
    let hard = "a\"b\\c\nd\re\tf\u{8}g\u{c}h\u{1}i\u{1f}j/é\u{7f}\u{2028}";
    let record = JournalRecord {
        event: "worker-finish".to_string(),
        run_id: "1-2".to_string(),
        feature_id: hard.to_string(),
        ts_ms: 7,
        worker_exit_status: Some(hard.to_string()),
        verdict: None,
        ref_name: None,
    };
    let line = append(&record);
    assert_eq!(line.matches('\n').count(), 1);
    let v = parsed(&line);
    assert_eq!(v.as_object().unwrap().len(), 5);
    assert_eq!(v["event"], "worker-finish");
    assert_eq!(v["run_id"], "1-2");
    assert_eq!(v["ts_ms"], 7);
    assert_eq!(v["feature_id"], hard);
    assert_eq!(v["worker_exit_status"], hard);
    assert!(v.get("verdict").is_none());
    assert_eq!(
        append(&journal().worker_start("\"\u{1}", 5)),
        "{\"event\":\"worker-start\",\"run_id\":\"1700000000123-42\",\
         \"feature_id\":\"\\\"\\u0001\",\"ts_ms\":5}\n"
    );
}

#[test]
fn run_ids_tell_runs_apart() {
    assert_ne!(mint_run_id(NOW, 1), mint_run_id(NOW, 2));
    assert_ne!(mint_run_id(NOW, 1), mint_run_id(Moment { secs: NOW.secs + 1, nanos: 0 }, 1));
    // Later runs sort later.
    assert!(mint_run_id(NOW, 9) < mint_run_id(Moment { secs: NOW.secs + 1, nanos: 0 }, 1));
}

#[test]
fn a_journal_is_found_until_it_is_done() {
    let j = journal();
    assert_eq!(journal_run_id(&j.path), Some(j.run_id.clone()));
    assert_eq!(journal_run_id(&format!("{}.done", j.path)), None);
    assert_eq!(journal_run_id("/ws/.loom/journal-.ndjson"), None);
    assert_eq!(journal_run_id("/ws/.loom/dispatch-1-2.log"), None);
}
