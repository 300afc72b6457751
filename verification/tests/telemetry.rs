use katana_fixture::telemetry::{
    block_sizes, block_times, blocks, blocks_until_empty_step, steps, MetricError, PollStep,
};

/// One well-formed log line with the given record timestamp and message
/// (quotes and backslashes in the message are escaped as the node does).
fn log_line(ts: &str, msg: &str) -> String {
    let escaped = msg.replace('\\', "\\\\").replace('"', "\\\"");
    format!(
        "{{\"timestamp\":\"{}\",\"level\":\"INFO\",\"fields\":{{\"message\":\"{}\",\"target\":\"katana::core\"}}}}",
        ts, escaped
    )
}

/// A block-mined message carrying `n` transactions and, between its 3rd and
/// 4th quote characters, the embedded instant `at`.
fn block_msg(n: u32, at: &str) -> String {
    format!(
        "\u{26cf}\u{fe0f} Block mined with {} transactions in block \"0x1\" at \"{}\"",
        n, at
    )
}

fn two_block_file() -> String {
    let l1 = log_line("2024-01-01T00:00:00Z", &block_msg(5, "2024-01-01T00:00:00Z"));
    let l2 = log_line("2024-01-01T00:00:02Z", &block_msg(0, "2024-01-01T00:00:02Z"));
    format!("{}\n{}\n", l1, l2)
}

#[test]
fn scenario_two_blocks_sizes_and_times() {
    let content = two_block_file();
    let sizes = block_sizes(content.as_bytes()).unwrap();
    assert_eq!(sizes, vec![5, 0]);
    let times = block_times(content.as_bytes()).unwrap();
    assert_eq!(times, vec![0, 2000]);
}

#[test]
fn scenario_single_steps_line() {
    let content = "Transaction resource usage: Steps: 1234 | foo";
    let got = steps(content.as_bytes()).unwrap();
    assert_eq!(got, vec![1234]);
}

#[test]
fn scenario_truncated_trailing_line_ignored() {
    let l1 = log_line("2024-01-01T00:00:00Z", &block_msg(3, "2024-01-01T00:00:00Z"));
    let truncated = &l1[..l1.len() - 10];
    let content = format!("{}\n{}", l1, truncated);
    let got = blocks(content.as_bytes());
    assert_eq!(got.len(), 1);
    let msg = String::from_utf8(got[0].clone()).unwrap();
    assert!(msg.contains("3 transactions"));
}

#[test]
fn idle_wait_returns_immediately_on_zero_tx_block() {
    let content = format!(
        "{}\n",
        log_line("2024-01-01T00:00:00Z", &block_msg(0, "2024-01-01T00:00:00Z"))
    );
    match blocks_until_empty_step(content.as_bytes()) {
        PollStep::Idle(b) => assert_eq!(b.len(), 1),
        PollStep::Busy(_) => panic!("a zero-transaction latest block must end the wait at once"),
    }
}

#[test]
fn idle_wait_keeps_polling_while_busy() {
    let content = format!(
        "{}\n",
        log_line("2024-01-01T00:00:00Z", &block_msg(7, "2024-01-01T00:00:00Z"))
    );
    match blocks_until_empty_step(content.as_bytes()) {
        PollStep::Idle(_) => panic!("a busy chain must not end the wait"),
        PollStep::Busy(n) => assert_eq!(n, 1),
    }
    match blocks_until_empty_step(b"") {
        PollStep::Idle(_) => panic!("an empty log must not end the wait"),
        PollStep::Busy(n) => assert_eq!(n, 0),
    }
}

#[test]
fn metric_series_are_parallel() {
    let content = two_block_file();
    let b = blocks(content.as_bytes());
    let sizes = block_sizes(content.as_bytes()).unwrap();
    let times = block_times(content.as_bytes()).unwrap();
    assert_eq!(sizes.len(), b.len());
    assert_eq!(times.len(), b.len());
    assert_eq!(times[0], 0);
}

#[test]
fn steps_invariant_under_unrelated_lines() {
    let bare = "Transaction resource usage: Steps: 42 | rest";
    let noisy = format!(
        "startup noise\n{}\n{}\nshutdown noise",
        log_line("2024-01-01T00:00:00Z", "unrelated"),
        bare
    );
    assert_eq!(steps(bare.as_bytes()).unwrap(), vec![42]);
    assert_eq!(steps(noisy.as_bytes()).unwrap(), vec![42]);
}

#[test]
fn blocks_idempotent_on_unchanged_content() {
    let content = two_block_file();
    let first = blocks(content.as_bytes());
    let second = blocks(content.as_bytes());
    assert_eq!(first, second);
}

#[test]
fn blocks_grow_by_prefix_extension() {
    let c1 = two_block_file();
    let appended = log_line("2024-01-01T00:00:04Z", &block_msg(2, "2024-01-01T00:00:04Z"));
    let c2 = format!("{}{}\n", c1, appended);
    let before = blocks(c1.as_bytes());
    let after = blocks(c2.as_bytes());
    assert_eq!(after.len(), before.len() + 1);
    assert_eq!(&after[..before.len()], &before[..]);
}

#[test]
fn empty_content_has_empty_series() {
    assert_eq!(blocks(b"").len(), 0);
    assert_eq!(block_sizes(b"").unwrap(), Vec::<u32>::new());
    assert_eq!(block_times(b"").unwrap(), Vec::<i64>::new());
    assert_eq!(steps(b"").unwrap(), Vec::<u64>::new());
}

#[test]
fn message_quotes_are_unescaped() {
    let content = format!(
        "{}\n",
        log_line("2024-01-01T00:00:00Z", &block_msg(4, "2024-01-01T00:00:00Z"))
    );
    let got = blocks(content.as_bytes());
    assert_eq!(got.len(), 1);
    assert_eq!(got[0], block_msg(4, "2024-01-01T00:00:00Z").into_bytes());
}

#[test]
fn non_block_records_and_garbage_are_skipped() {
    let content = format!(
        "garbage not json\n{}\n{}\n",
        log_line("2024-01-01T00:00:00Z", "started listening"),
        log_line("2024-01-01T00:00:01Z", &block_msg(1, "2024-01-01T00:00:01Z"))
    );
    assert_eq!(blocks(content.as_bytes()).len(), 1);
}

#[test]
fn block_size_error_reports_offending_index() {
    let good = log_line("2024-01-01T00:00:00Z", &block_msg(1, "2024-01-01T00:00:00Z"));
    let bad = log_line(
        "2024-01-01T00:00:01Z",
        "\u{26cf}\u{fe0f} Block mined with no count",
    );
    let content = format!("{}\n{}\n", good, bad);
    assert_eq!(
        block_sizes(content.as_bytes()),
        Err(MetricError::BlockSize { index: 1 })
    );
}

#[test]
fn block_time_error_reports_offending_index() {
    let bad = log_line(
        "2024-01-01T00:00:00Z",
        "\u{26cf}\u{fe0f} Block mined with 2 transactions and no quoted fields",
    );
    let content = format!("{}\n", bad);
    assert_eq!(
        block_times(content.as_bytes()),
        Err(MetricError::BlockTime { index: 0 })
    );
}

#[test]
fn steps_error_on_missing_delimiter() {
    let content = "Transaction resource usage: Steps: 1234 without closing";
    assert_eq!(
        steps(content.as_bytes()),
        Err(MetricError::Steps { line: 0 })
    );
}

#[test]
fn steps_error_on_non_numeric_count() {
    let content = "fine line\nTransaction resource usage: Steps: 12x4 | foo";
    assert_eq!(
        steps(content.as_bytes()),
        Err(MetricError::Steps { line: 1 })
    );
}

#[test]
fn fractional_seconds_and_zone_offsets() {
    let l1 = log_line(
        "2024-01-01T00:00:00Z",
        &block_msg(1, "2024-01-01T00:00:00.250Z"),
    );
    let l2 = log_line(
        "2024-01-01T00:00:02Z",
        &block_msg(1, "2024-01-01T00:00:02.750Z"),
    );
    let l3 = log_line(
        "2024-01-01T00:00:02Z",
        &block_msg(1, "2024-01-01T01:00:02.750+01:00"),
    );
    let content = format!("{}\n{}\n{}\n", l1, l2, l3);
    let times = block_times(content.as_bytes()).unwrap();
    assert_eq!(times, vec![0, 2500, 0]);
}

#[test]
fn leap_day_delta() {
    let l1 = log_line(
        "2024-02-29T00:00:00Z",
        &block_msg(1, "2024-02-29T00:00:00Z"),
    );
    let l2 = log_line(
        "2024-03-01T00:00:00Z",
        &block_msg(1, "2024-03-01T00:00:00Z"),
    );
    let content = format!("{}\n{}\n", l1, l2);
    let times = block_times(content.as_bytes()).unwrap();
    assert_eq!(times, vec![0, 86_400_000]);
}

#[test]
fn malformed_embedded_timestamp_is_an_error() {
    let bad = log_line(
        "2024-01-01T00:00:00Z",
        "\u{26cf}\u{fe0f} Block mined with 2 transactions in block \"0x9\" at \"yesterday\"",
    );
    let content = format!("{}\n", bad);
    assert_eq!(
        block_times(content.as_bytes()),
        Err(MetricError::BlockTime { index: 0 })
    );
}

#[test]
fn steps_accepts_the_largest_count_and_rejects_overflow() {
    let max = "Transaction resource usage: Steps: 18446744073709551615 | x";
    assert_eq!(steps(max.as_bytes()).unwrap(), vec![u64::MAX]);
    let over = "Transaction resource usage: Steps: 18446744073709551616 | x";
    assert_eq!(steps(over.as_bytes()), Err(MetricError::Steps { line: 0 }));
}

#[test]
fn complete_unterminated_trailing_line_counts() {
    let l1 = log_line("2024-01-01T00:00:00Z", &block_msg(1, "2024-01-01T00:00:00Z"));
    let l2 = log_line("2024-01-01T00:00:01Z", &block_msg(2, "2024-01-01T00:00:01Z"));
    let content = format!("{}\n{}", l1, l2);
    assert_eq!(block_sizes(content.as_bytes()).unwrap(), vec![1, 2]);
}

#[test]
fn lowercase_and_space_separated_timestamps() {
    let l1 = log_line("2024-01-01T00:00:00Z", &block_msg(1, "2024-01-01t00:00:00z"));
    let l2 = log_line("2024-01-01T00:00:02Z", &block_msg(1, "2024-01-01 00:00:02z"));
    let content = format!("{}\n{}\n", l1, l2);
    assert_eq!(block_times(content.as_bytes()).unwrap(), vec![0, 2000]);
}

#[test]
fn leap_second_is_admitted() {
    let l1 = log_line("2024-06-30T23:59:60Z", &block_msg(1, "2024-06-30T23:59:60Z"));
    let l2 = log_line("2024-07-01T00:00:00Z", &block_msg(1, "2024-07-01T00:00:00Z"));
    let content = format!("{}\n{}\n", l1, l2);
    assert_eq!(block_times(content.as_bytes()).unwrap(), vec![0, 0]);
}

#[test]
fn control_character_escapes_are_unescaped() {
    let msg = "\u{26cf}\u{fe0f} Block mined with 6 transactions in block \"0x1\" at \"2024-01-01T00:00:00Z\"\u{1b}[0m";
    let escaped = msg
        .replace('\\', "\\\\")
        .replace('"', "\\\"")
        .replace('\u{1b}', "\\u001b");
    let line = format!(
        "{{\"timestamp\":\"2024-01-01T00:00:00Z\",\"level\":\"INFO\",\"fields\":{{\"message\":\"{}\",\"target\":\"katana::core\"}}}}",
        escaped
    );
    let content = format!("{}\n", line);
    let got = blocks(content.as_bytes());
    assert_eq!(got.len(), 1);
    assert_eq!(got[0], msg.as_bytes().to_vec());
    assert_eq!(block_sizes(content.as_bytes()).unwrap(), vec![6]);
}
