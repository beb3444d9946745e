use loom_rt::calendar::{civil_from_days, CivilDate};
use loom_rt::decimal::{decimal_text, padded_text, parse_number, parse_signed_number};
use loom_rt::moment::{utc_timestamp, Moment, TimeSpan};
use loom_rt::status::{describe_run_logs, recent_run_logs, run_log_file};
use loom_rt::text::{split_char, split_once, strip_prefix, strip_suffix, trim, trim_end};
use loom_rt::verdict::{
    parse_once, parse_with_retry, process_event, review_block, terminal_verdict, AeVerdict,
    ChangeKind, RetryStep, ReviewRead, REVIEW_ATTEMPTS, REVIEW_RETRY_MILLIS, VERDICT_CHANNEL_CAPACITY,
};

fn at(secs: i64) -> Moment {
    Moment { secs, nanos: 0 }
}

fn texts(items: &[&str]) -> Vec<String> {
    items.iter().map(|s| s.to_string()).collect()
}

/// What one reading of a `review.md` with this content gives.
fn read_review(content: &str) -> ReviewRead {
    let yaml = match review_block(content) {
        Ok(y) => y,
        Err(read) => return read,
    };
    match serde_yaml::from_str::<serde_yaml::Value>(&yaml) {
        Ok(v) => ReviewRead::Frontmatter(v["verdict"].as_str().map(|w| w.to_string())),
        Err(_) => ReviewRead::Failed,
    }
}

/// A file whose frontmatter has one key.
fn file_with(key: &str, value: &str, body: &str) -> String {
    format!("---\n{key}: {value}\n---\n{body}")
}

/// The verdict of a review that does not change while it is read.
fn verdict_of(content: &str) -> Option<AeVerdict> {
    let read = read_review(content);
    for attempt in 0..REVIEW_ATTEMPTS {
        match parse_with_retry(attempt, &read) {
            RetryStep::Return(v) => return v,
            RetryStep::ReadAgain => {}
            RetryStep::GiveUp => return None,
        }
    }
    None
}

#[test]
fn parse_pass() {
    assert_eq!(verdict_of(&file_with("verdict", "pass", "body\n")), Some(AeVerdict::Pass));
}

#[test]
fn parse_fail() {
    assert_eq!(verdict_of(&file_with("verdict", "fail", "")), Some(AeVerdict::Fail));
}

#[test]
fn parse_pending_dropped() {
    assert_eq!(verdict_of(&file_with("verdict", "pending", "")), None);
}

#[test]
fn parse_missing_frontmatter_dropped() {
    assert_eq!(verdict_of("just a body, no fm\n"), None);
}

#[test]
fn parse_empty_verdict_dropped() {
    assert_eq!(verdict_of(&file_with("verdict", "\"\"", "")), None);
}

#[test]
fn a_review_is_unfinished_until_its_frontmatter_is_closed() {
    for content in ["", "body\n", "---\nverdict", "---\nkey: 1\n--\n"] {
        assert!(matches!(review_block(content), Err(ReviewRead::Unfinished)));
    }
    match review_block("---\nkey: 1\n---\nbody\n") {
        Ok(block) => assert_eq!(block, "key: 1"),
        Err(read) => panic!("not read: {read:?}"),
    }
}

#[test]
fn a_failed_reading_is_repeated() {
    let failed = ReviewRead::Failed;
    assert_eq!(parse_once(&failed), Err(()));
    assert_eq!(parse_with_retry(0, &failed), RetryStep::ReadAgain);
    assert_eq!(parse_with_retry(1, &failed), RetryStep::ReadAgain);
    assert_eq!(parse_with_retry(2, &failed), RetryStep::GiveUp);
    assert_eq!(parse_with_retry(0, &ReviewRead::Unfinished), RetryStep::Return(None));
    assert_eq!(REVIEW_RETRY_MILLIS, 200);
    assert_eq!(VERDICT_CHANNEL_CAPACITY, 256);
}

#[test]
fn only_two_words_are_verdicts() {
    let word = |w: &str| terminal_verdict(&Some(w.to_string()));
    assert_eq!(word("pass"), Some(AeVerdict::Pass));
    assert_eq!(word("fail"), Some(AeVerdict::Fail));
    assert_eq!(word("Pass"), None);
    assert_eq!(word("pass "), None);
    assert_eq!(terminal_verdict(&None), None);
}

#[test]
fn changed_reviews_name_their_feature() {
    let paths = texts(&[
        "/ws/.ae/features/active/F-001-x/review.md",
        "/ws/.ae/features/active/F-001-x/plan.md",
        "review.md",
        "/review.md",
        "/ws/F-002/review.md",
    ]);
    for kind in [ChangeKind::Create, ChangeKind::Modify] {
        let found = process_event(kind, &paths);
        let named: Vec<(&str, &str)> =
            found.iter().map(|t| (t.feature_id.as_str(), t.review_path.as_str())).collect();
        assert_eq!(
            named,
            vec![
                ("F-001-x", "/ws/.ae/features/active/F-001-x/review.md"),
                ("F-002", "/ws/F-002/review.md"),
            ]
        );
    }
    assert!(process_event(ChangeKind::Other, &paths).is_empty());
}

#[test]
fn utc_timestamp_epoch() {
    assert_eq!(utc_timestamp(at(0)), "19700101T000000Z");
}

#[test]
fn utc_timestamp_known_moment() {
    assert_eq!(utc_timestamp(at(1_705_322_096)), "20240115T123456Z");
}

#[test]
fn utc_timestamp_leap_year_feb29() {
    assert_eq!(utc_timestamp(at(1_709_164_800)), "20240229T000000Z");
}

#[test]
fn timestamps_sort_by_time() {
    let seconds: [i64; 6] =
        [0, 59, 86_399, 86_400, 1_709_164_800, 253_402_300_799];
    for pair in seconds.windows(2) {
        assert!(utc_timestamp(at(pair[0])) < utc_timestamp(at(pair[1])));
        assert!(run_log_file(at(pair[0])) < run_log_file(at(pair[1])));
    }
    assert_eq!(utc_timestamp(at(-1)), "19700101T000000Z");
    assert_eq!(utc_timestamp(at(253_402_300_800)), "100000101T000000Z");
    assert_eq!(run_log_file(at(0)), "run-19700101T000000Z.log");
}

#[test]
fn days_are_dates() {
    assert_eq!(civil_from_days(0), CivilDate { year: 1970, month: 1, day: 1 });
    assert_eq!(civil_from_days(11_016), CivilDate { year: 2000, month: 2, day: 29 });
    assert_eq!(civil_from_days(11_017), CivilDate { year: 2000, month: 3, day: 1 });
    assert_eq!(civil_from_days(47_540), CivilDate { year: 2100, month: 2, day: 28 });
    assert_eq!(civil_from_days(47_541), CivilDate { year: 2100, month: 3, day: 1 });
}

#[test]
fn spans_are_in_milliseconds() {
    assert_eq!(TimeSpan { secs: 2, nanos: 1_999_999 }.as_millis(), 2001);
    assert_eq!(Moment { secs: 2, nanos: 1_999_999 }.unix_millis(), 2001);
    assert_eq!(Moment { secs: -1, nanos: 999_999_999 }.unix_millis(), 0);
}

#[test]
fn the_latest_run_log_is_the_last_by_name() {
    let names = texts(&[
        "run-20240115T123456Z.log",
        "run-20240229T000000Z.log",
        "dispatch-1-2.log",
        "run-20230101T000000Z.log",
        "run-x.txt",
    ]);
    let (count, latest) = recent_run_logs(&names);
    assert_eq!(count, 3);
    assert_eq!(latest, Some("run-20240229T000000Z.log".to_string()));
    assert_eq!(recent_run_logs(&vec![]), (0, None));
    assert_eq!(
        describe_run_logs("/ws/.loom", count, &latest),
        "\nrun logs: 3 file(s) under /ws/.loom\n\
         most recent: /ws/.loom/run-20240229T000000Z.log"
    );
    assert_eq!(describe_run_logs("/ws/.loom", 0, &None), "\nrun logs: none under /ws/.loom");
}

#[test]
fn numbers_read_back() {
    for n in [0u64, 7, 10, 4_294_967_295, u64::MAX] {
        assert_eq!(decimal_text(n as u128), n.to_string());
        assert_eq!(parse_number(&decimal_text(n as u128), u64::MAX), Some(n));
    }
    assert_eq!(decimal_text(u128::MAX), u128::MAX.to_string());
    assert_eq!(padded_text(7, 4), "0007");
    assert_eq!(padded_text(12345, 4), "12345");
    assert_eq!(parse_number("", 9), None);
    assert_eq!(parse_number("10", 9), None);
    assert_eq!(parse_number("007", 9), Some(7));
    assert_eq!(parse_number("+7", 9), None);
    assert_eq!(parse_signed_number("+7", 9), Some(7));
    assert_eq!(parse_signed_number("-7", 9), None);
    assert_eq!(parse_signed_number("+", 9), None);
    assert_eq!(parse_number("٣", 9), None);
}

#[test]
fn white_space_is_what_unicode_says() {
    let listed = [
        '\u{9}', '\u{a}', '\u{b}', '\u{c}', '\u{d}', '\u{20}', '\u{85}', '\u{a0}', '\u{1680}',
        '\u{2000}', '\u{2001}', '\u{2002}', '\u{2003}', '\u{2004}', '\u{2005}', '\u{2006}',
        '\u{2007}', '\u{2008}', '\u{2009}', '\u{200a}', '\u{2028}', '\u{2029}', '\u{202f}',
        '\u{205f}', '\u{3000}',
    ];
    for c in '\u{0}'..='\u{10ffff}' {
        assert_eq!(trim(&c.to_string()).is_empty(), listed.contains(&c), "{c:?}");
    }
}

#[test]
fn texts_are_cut_as_std_does() {
    let samples = ["", "a", " a b ", "\u{a0}x\u{2003}", "\u{200b}x", "a=b=c", "--", "\t\r\n"];
    for s in samples {
        assert_eq!(trim(s), s.trim());
        assert_eq!(trim_end(s), s.trim_end());
        let parts: Vec<String> = s.split('=').map(|p| p.to_string()).collect();
        assert_eq!(split_char(s, '='), parts);
        let once = s.split_once('=').map(|(a, b)| (a.to_string(), b.to_string()));
        assert_eq!(split_once(s, '='), once);
        assert_eq!(strip_prefix(s, "a"), s.strip_prefix("a").map(|r| r.to_string()));
        assert_eq!(strip_suffix(s, "a"), s.strip_suffix("a").map(|r| r.to_string()));
    }
}
