use loom_rt::atomic_write::{
    atomic_write, create_dir_all_synced, fsync_parent_dir, StepResult, WriteStage,
};
use loom_rt::delivery::{delivery_failure, write_dispatch_log};
use loom_rt::dispatch::DispatchReport;
use loom_rt::journal::{append, RunJournal};
use loom_rt::moment::Moment;
use loom_rt::paths::{file_name, join, parent, tmp_path};
use loom_rt::recovery::recover_orphan_runs;
use loom_rt::state::FileWrite;
use std::path::Path;
use std::sync::Arc;
use tokio::io::AsyncWriteExt;

const NOW: Moment = Moment { secs: 1_700_000_000, nanos: 0 };

fn text(path: &Path) -> String {
    path.to_str().unwrap().to_string()
}

fn runtime() -> tokio::runtime::Runtime {
    tokio::runtime::Builder::new_multi_thread().worker_threads(4).enable_all().build().unwrap()
}

async fn sync_parent(path: &str) -> std::io::Result<()> {
    match fsync_parent_dir(path) {
        Some(dir) => tokio::fs::File::open(dir).await?.sync_all().await,
        None => Ok(()),
    }
}

async fn write_aside(path: &str, contents: &str) -> std::io::Result<()> {
    let mut file = tokio::fs::File::create(path).await?;
    file.write_all(contents.as_bytes()).await?;
    file.sync_all().await
}

/// Writes a file as the stages of the write say.
async fn write(file: &FileWrite) -> Result<(), String> {
    if let Some(dir) = fsync_parent_dir(&file.path) {
        for step in create_dir_all_synced(&dir) {
            if !Path::new(&step).exists() {
                tokio::fs::create_dir(&step).await.map_err(|e| e.to_string())?;
                sync_parent(&step).await.map_err(|e| e.to_string())?;
            }
        }
    }
    let aside = tmp_path(&file.path);
    let mut stage = WriteStage::WriteAside;
    loop {
        let done = match stage {
            WriteStage::WriteAside => write_aside(&aside, &file.contents).await,
            WriteStage::Rename => tokio::fs::rename(&aside, &file.path).await,
            WriteStage::Copy => tokio::fs::copy(&aside, &file.path).await.map(|_| ()),
            WriteStage::RemoveCopied | WriteStage::RemoveAside => {
                tokio::fs::remove_file(&aside).await
            }
            WriteStage::SyncTarget => match tokio::fs::File::open(&file.path).await {
                Ok(f) => f.sync_all().await,
                Err(e) => Err(e),
            },
            WriteStage::SyncParent => sync_parent(&file.path).await,
            WriteStage::Written => return Ok(()),
            WriteStage::Failed => return Err("the write failed".to_string()),
        };
        let result = if done.is_ok() { StepResult::Done } else { StepResult::Failed };
        stage = atomic_write(stage, result);
    }
}

/// Delivers a report; a failure gives what the operator is told.
async fn deliver(report: &DispatchReport, loom_dir: &str, run_id: &str) -> Result<String, String> {
    let log = write_dispatch_log(report, loom_dir, run_id);
    match write(&log).await {
        Ok(()) => Ok(log.path),
        Err(e) => Err(delivery_failure(loom_dir, &e)),
    }
}

async fn contents(path: &Path) -> String {
    tokio::fs::read_to_string(path).await.unwrap()
}

fn file(path: &Path, contents: &str) -> FileWrite {
    FileWrite { path: text(path), contents: contents.to_string() }
}

fn empty_report() -> DispatchReport {
    DispatchReport { started_at_ms: 0, elapsed_ms: 0, dispatched_count: 0, outcomes: vec![] }
}

/// Begins a journal in `loom_dir`, and makes its file.
async fn begin_journal(loom_dir: &str) -> RunJournal {
    let (looked, _) = recover_orphan_runs(&vec![], loom_dir);
    sync_parent(loom_dir).await.unwrap();
    let journal = RunJournal::create(loom_dir, NOW, 42, looked);
    tokio::fs::File::create(&journal.path).await.unwrap();
    sync_parent(&journal.path).await.unwrap();
    journal
}

#[test]
fn writes_new_file() {
    let dir = tempfile::tempdir().unwrap();
    let path = dir.path().join("a.json");
    runtime().block_on(async {
        write(&file(&path, "hello")).await.unwrap();
        assert_eq!(contents(&path).await, "hello");
        assert!(!path.with_extension("json.tmp").exists());
    });
}

#[test]
fn overwrites_existing_file_atomically() {
    let dir = tempfile::tempdir().unwrap();
    let path = dir.path().join("b.log");
    runtime().block_on(async {
        tokio::fs::write(&path, "old").await.unwrap();
        write(&file(&path, "new")).await.unwrap();
        assert_eq!(contents(&path).await, "new");
    });
}

#[test]
fn creates_parent_dirs() {
    let dir = tempfile::tempdir().unwrap();
    let path = dir.path().join("nested/deep/file.txt");
    runtime().block_on(async {
        write(&file(&path, "x")).await.unwrap();
        assert_eq!(contents(&path).await, "x");
    });
}

#[test]
fn atomic_write_fsyncs_parent_dir() {
    let dir = tempfile::tempdir().unwrap();
    runtime().block_on(async {
        sync_parent(&text(&dir.path().join("file.json"))).await.unwrap();
        let path = dir.path().join("nested/x.json");
        write(&file(&path, "data")).await.unwrap();
        assert_eq!(contents(&path).await, "data");
    });
}

#[test]
fn atomic_write_creates_and_fsyncs_deep_new_ancestors() {
    let dir = tempfile::tempdir().unwrap();
    let path = dir.path().join("a/b/c/deep.json");
    runtime().block_on(async {
        write(&file(&path, "deep")).await.unwrap();
        assert_eq!(contents(&path).await, "deep");
    });
}

#[test]
fn deliver_writes_normal_log_on_ok() {
    let dir = tempfile::tempdir().unwrap();
    runtime().block_on(async {
        let path =
            deliver(&empty_report(), &text(dir.path()), "1700000000000-2").await.unwrap();
        assert!(Path::new(&path).exists());
    });
}

#[test]
fn deliver_returns_err_and_does_not_panic_on_write_failure() {
    let dir = tempfile::tempdir().unwrap();
    let blocker = dir.path().join("blocker");
    runtime().block_on(async {
        tokio::fs::write(&blocker, "x").await.unwrap();
        let bad = text(&blocker.join("loom"));
        let told = deliver(&empty_report(), &bad, "1700000000000-1").await.unwrap_err();
        let begin = format!("loom: FAILED to write dispatch log under {bad} — ");
        assert!(told.starts_with(&begin));
        assert!(told.len() > begin.len());
    });
}

#[test]
fn create_mints_run_id_and_makes_journal_file() {
    let dir = tempfile::tempdir().unwrap();
    runtime().block_on(async {
        let j = begin_journal(&text(dir.path())).await;
        assert!(Path::new(&j.path).exists());
        let name = file_name(&j.path).unwrap();
        assert!(name.contains(&j.run_id));
        assert!(name.starts_with("journal-") && name.ends_with(".ndjson"));
    });
}

#[test]
fn create_fsyncs_freshly_made_loom_dir_entry() {
    let workspace = tempfile::tempdir().unwrap();
    let loom_dir = text(&workspace.path().join(".loom"));
    runtime().block_on(async {
        tokio::fs::create_dir_all(&loom_dir).await.unwrap();
        // The directory that names `.loom` is the one that is flushed.
        assert_eq!(fsync_parent_dir(&loom_dir), Some(text(workspace.path())));
        let j = begin_journal(&loom_dir).await;
        assert!(Path::new(&j.path).exists());
        assert_eq!(parent(&j.path), Some(loom_dir.clone()));
        assert_eq!(join(&loom_dir, &file_name(&j.path).unwrap()), j.path);
    });
}

#[test]
fn journal_append_serializes_concurrent_writers() {
    let dir = tempfile::tempdir().unwrap();
    let n: usize = 50;
    let body = runtime().block_on(async {
        let j = Arc::new(begin_journal(&text(dir.path())).await);
        let mut options = tokio::fs::OpenOptions::new();
        let opened = options.append(true).open(&j.path).await.unwrap();
        let writer = Arc::new(tokio::sync::Mutex::new(opened));
        let mut handles = vec![];
        for i in 0..n {
            let j = Arc::clone(&j);
            let writer = Arc::clone(&writer);
            handles.push(tokio::spawn(async move {
                let line = append(&j.worker_start(&format!("F-{i:03}"), 1));
                let mut file = writer.lock().await;
                file.write_all(line.as_bytes()).await.unwrap();
                file.sync_all().await.unwrap();
            }));
        }
        for handle in handles {
            handle.await.unwrap();
        }
        contents(Path::new(&j.path)).await
    });
    let lines: Vec<&str> = body.lines().collect();
    assert_eq!(lines.len(), n);
    let mut ids: Vec<String> = lines
        .iter()
        .map(|l| {
            let v: serde_json::Value = serde_json::from_str(l).unwrap();
            v["feature_id"].as_str().unwrap().to_string()
        })
        .collect();
    ids.sort();
    ids.dedup();
    assert_eq!(ids.len(), n);
}
