//! Project configuration: what the pipeline file says to `loom`.

use crate::moment::TimeSpan;
use vstd::prelude::*;

verus! {

/// Minutes that a worker may run, unless the project says otherwise.
pub const DEFAULT_WORKER_TIMEOUT_MINUTES: u64 = 90;

/// The configuration of a project.
#[derive(Debug)]
pub struct LoomConfig {
    pub worker_timeout_minutes: u64,
}

impl Default for LoomConfig {
    fn default() -> (r: Self)
        ensures
            r.worker_timeout_minutes == DEFAULT_WORKER_TIMEOUT_MINUTES,
    {
        LoomConfig { worker_timeout_minutes: DEFAULT_WORKER_TIMEOUT_MINUTES }
    }
}

/// Seconds that a worker may run: those of so many minutes, or of the default where
/// that is more than can be counted.
pub open spec fn timeout_secs(minutes: nat) -> nat {
    if minutes * 60 <= u64::MAX {
        minutes * 60
    } else {
        (DEFAULT_WORKER_TIMEOUT_MINUTES * 60) as nat
    }
}

impl LoomConfig {
    /// How long a worker may run.
    pub fn worker_timeout(&self) -> (r: TimeSpan)
        ensures
            r.secs == timeout_secs(self.worker_timeout_minutes as nat),
            r.nanos == 0,
    {
        match self.worker_timeout_minutes.checked_mul(60) {
            Some(secs) => TimeSpan::from_secs(secs),
            None => TimeSpan::from_secs(60 * DEFAULT_WORKER_TIMEOUT_MINUTES),
        }
    }
}

/// What reading the configuration gave.
#[derive(Debug)]
pub enum ConfigRead {
    /// There is no such file.
    Missing,
    /// It could not be read.
    Unreadable,
    /// It is not YAML of the expected shape.
    Malformed,
    /// The minutes that it gives; `None` where it says nothing of them.
    Minutes(Option<u64>),
}

/// The minutes that a worker may run: the file's, unless it has none or says 0.
pub open spec fn configured_minutes(read: ConfigRead) -> u64 {
    match read {
        ConfigRead::Minutes(Some(m)) => if m == 0 {
            DEFAULT_WORKER_TIMEOUT_MINUTES
        } else {
            m
        },
        _ => DEFAULT_WORKER_TIMEOUT_MINUTES,
    }
}

/// The configuration of a project. It never fails: where the file does not serve,
/// the default does.
pub fn load_config(read: ConfigRead) -> (r: LoomConfig)
    ensures
        r.worker_timeout_minutes == configured_minutes(read),
{
    match read {
        ConfigRead::Minutes(Some(m)) => if m == 0 {
            LoomConfig::default()
        } else {
            LoomConfig { worker_timeout_minutes: m }
        },
        _ => LoomConfig::default(),
    }
}

/// A configured worker never has to stop before it begins.
pub proof fn law_timeout_is_positive(read: ConfigRead)
    ensures
        configured_minutes(read) > 0,
        timeout_secs(configured_minutes(read) as nat) >= 60,
{
}

/// The minutes that a project asks for are the ones that its workers get, down to the
/// second, as long as they are more than none and can be counted. In every other case
/// they get ninety.
pub proof fn law_asked_minutes_are_given(read: ConfigRead)
    ensures
        ({
            let secs = timeout_secs(configured_minutes(read) as nat);
            match read {
                ConfigRead::Minutes(Some(m)) => if 0 < m && m * 60 <= u64::MAX {
                    secs == m * 60 && configured_minutes(read) == m
                } else {
                    secs == 5400
                },
                _ => secs == 5400 && configured_minutes(read) == 90,
            }
        }),
{
}

} // verus!
