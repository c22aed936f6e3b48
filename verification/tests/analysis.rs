//! Throughput, queue depths and time scales.

use nvme_trace::commands::{CommandKey, Effect, InFlight, QueueKey};
use nvme_trace::depth::QueueDepthState;
use nvme_trace::distribution::{
    analyze_queue_depth_percent_records, format_distribution, DistributionRow,
};
use nvme_trace::record::{
    CompleteRecord, Header, SubmitRecord, SubmitTail, TraceRecord, NVME_TRACE_COMPLETE,
    NVME_TRACE_MAGIC, NVME_TRACE_SUBMIT, NVME_TRACE_VERSION, SQE_LEN,
};
use nvme_trace::sampling::analyze_queue_depth_records;
use nvme_trace::scale::{
    checked_scale_ns, is_moderate, parse_scale_ns, scale_from_nanos, ScaleError,
};
use nvme_trace::stream::TextSink;
use nvme_trace::throughput::{analyze_throughput_records, format_throughput, ThroughputRow};

#[test]
fn parses_scale_with_humantime_units() {
    assert_eq!(parse_scale_ns("1ns").unwrap(), 1);
    assert_eq!(parse_scale_ns("1us").unwrap(), 1_000);
    assert_eq!(parse_scale_ns("2ms").unwrap(), 2_000_000);
    assert_eq!(parse_scale_ns("3s").unwrap(), 3_000_000_000);
    assert!(parse_scale_ns("0ns").is_err());
    assert!(parse_scale_ns("abc").is_err());
    assert!(parse_scale_ns("18446744074s").is_err());
}

#[test]
fn scales_fail_for_their_own_reasons() {
    assert!(matches!(parse_scale_ns("abc"), Err(ScaleError::Invalid(_))));
    assert!(matches!(parse_scale_ns("0ns"), Err(ScaleError::Zero)));
    assert!(matches!(parse_scale_ns("18446744074s"), Err(ScaleError::TooLarge)));
    assert!(matches!(scale_from_nanos(0), Err(ScaleError::Zero)));
    assert_eq!(scale_from_nanos(u64::MAX as u128).unwrap(), u64::MAX);
    assert!(matches!(scale_from_nanos(u64::MAX as u128 + 1), Err(ScaleError::TooLarge)));
    assert_eq!(parse_scale_ns("18446744073709551614ns").unwrap(), u64::MAX - 1);
    assert_eq!(parse_scale_ns("1h 30min 15s").unwrap(), 5_415_000_000_000);
    assert_eq!(parse_scale_ns("1.5ms").unwrap(), 1_500_000);
    match parse_scale_ns("12") {
        Err(ScaleError::Invalid(err)) => {
            assert_eq!(err.to_string(), "time unit needed, for example 12sec or 12ms")
        }
        _ => panic!("expected an invalid scale"),
    }
}

#[test]
fn moderate_scales_stay_below_the_largest_duration() {
    for scale in [
        "", "abc", "1ns", "18446744074s", "18446744073709551615ns", "18446744073709551615s",
        "999999999999999999999999999999s", "584542046091y", "1 2 3 s", "1s 1s", "1h 30min 15s",
        "18446744073709551614s 1ns", "584542046089y 1m", "1min 600000000000ns", "1.5h 1.5min",
        "18446744073709551000ns 600millis 15msec", "1s 1s 99999999999999999999999",
        "0.5000000000000h 1s", "1.99999999999999999999s 1s", "18446744073709551615ns 0.0s",
        "1month 1months 1M 1millis 1min", "584542046090y 1m", "18446744073709551615s 999999999ns",
        "18446744073709551610ns 0.00000000005m", "1y 1M 1w 1d 1h 1m 1s 1ms 1us 1ns",
    ] {
        assert!(is_moderate(scale));
    }
    for scale in [
        "18446744073709551615s 1000ms",
        "1 8 4 4 6 7 4 4 0 7 3 7 0 9 5 5 1 6 1 5 s 1s",
        "584542046090y 1y",
        "99999999999999999999999s 1s",
        "18446744073709551615.5s 1s",
    ] {
        assert!(!is_moderate(scale));
    }
    assert_eq!(parse_scale_ns("18446744073709551615ns").unwrap(), u64::MAX);
    assert!(matches!(parse_scale_ns("18446744073709551615s"), Err(ScaleError::TooLarge)));
    assert!(matches!(parse_scale_ns("584542046091y"), Err(ScaleError::Invalid(_))));
    assert!(matches!(
        parse_scale_ns("999999999999999999999999999999s"),
        Err(ScaleError::Invalid(_))
    ));
    assert!(matches!(
        parse_scale_ns("18446744073709551614s 1ns"),
        Err(ScaleError::TooLarge)
    ));
    assert_eq!(parse_scale_ns("0.5000000000000h 1s").unwrap(), 1_801_000_000_000);
    assert_eq!(parse_scale_ns("18446744073709551615ns 0.0s").unwrap(), u64::MAX);
    assert_eq!(
        parse_scale_ns("18446744073709551610ns 0.00000000005m").unwrap(),
        18446744073709551613
    );
    assert_eq!(
        parse_scale_ns("1y 1M 1w 1d 1h 1m 1s 1ms 1us 1ns").unwrap(),
        34_882_477_001_001_001
    );
    assert_eq!(parse_scale_ns("1min 600000000000ns").unwrap(), 660_000_000_000);
    assert_eq!(parse_scale_ns("18446744073709551614ns 1ns").unwrap(), u64::MAX);
    assert!(matches!(
        parse_scale_ns("1s 1s 99999999999999999999999"),
        Err(ScaleError::Invalid(_))
    ));
}

#[test]
fn any_text_can_be_read_as_a_scale() {
    assert_eq!(checked_scale_ns("1h 30min 15s").unwrap(), 5_415_000_000_000);
    assert!(matches!(checked_scale_ns("0ns"), Err(ScaleError::Zero)));
    assert!(matches!(checked_scale_ns("abc"), Err(ScaleError::Invalid(_))));
    assert!(matches!(checked_scale_ns("18446744074s"), Err(ScaleError::TooLarge)));
    for scale in ["18446744073709551615s 1000ms", "99999999999999999999999s 1s"] {
        assert!(matches!(checked_scale_ns(scale), Err(ScaleError::Immoderate)));
    }
}

#[test]
fn throughput_buckets_completed_bytes_by_completion_time() {
    let records = vec![
        submit(1_000, 1, 0, 1, 10, 100),
        submit(1_050, 2, 0, 1, 11, 200),
        complete(1_100, 3, 0, 1, 10),
        complete(1_250, 4, 0, 1, 11),
    ];
    let (output, warnings) = run_throughput(records, 100);

    assert_eq!(
        output,
        "time_ns\tbytes_per_second\n100\t1000000000.000000\n200\t2000000000.000000\n"
    );
    assert!(warnings.is_empty());
}

#[test]
fn queue_depth_samples_global_and_per_queue() {
    let records = vec![
        submit(1_000, 1, 0, 1, 10, 100),
        submit(1_050, 2, 0, 2, 20, 100),
        complete(1_120, 3, 0, 1, 10),
        complete(1_250, 4, 0, 2, 20),
    ];
    let (output, warnings) = run_queue_depth(records, 100);

    assert_eq!(
        output,
        [
            "time_ns\tscope\tctrl_id\tqid\tqueue_depth\n",
            "0\tglobal\t\t\t1\n",
            "0\tqueue\t0\t1\t1\n",
            "100\tglobal\t\t\t2\n",
            "100\tqueue\t0\t1\t1\n",
            "100\tqueue\t0\t2\t1\n",
            "200\tglobal\t\t\t1\n",
            "200\tqueue\t0\t1\t0\n",
            "200\tqueue\t0\t2\t1\n",
        ]
        .concat()
    );
    assert!(warnings.is_empty());
}

#[test]
fn queue_depth_percent_samples_before_submit() {
    let records = vec![
        submit(1_000, 1, 0, 1, 10, 100),
        submit(1_010, 2, 0, 1, 11, 100),
        complete(1_020, 3, 0, 1, 10),
        submit(1_030, 4, 0, 1, 12, 100),
    ];
    let (output, warnings) = run_queue_depth_percent(records);

    assert_eq!(
        output,
        [
            "scope\tctrl_id\tqid\tqueue_depth\tcount\tpercent\n",
            "global\t\t\t0\t1\t33.333333\n",
            "global\t\t\t1\t2\t66.666667\n",
            "queue\t0\t1\t0\t1\t33.333333\n",
            "queue\t0\t1\t1\t2\t66.666667\n",
        ]
        .concat()
    );
    assert!(warnings.is_empty());
}

#[test]
fn warns_for_unmatched_completions_and_duplicate_submits() {
    let records = vec![
        complete(1_000, 1, 0, 1, 10),
        submit(1_010, 2, 0, 1, 10, 100),
        submit(1_020, 3, 0, 1, 10, 200),
        complete(1_030, 4, 0, 1, 10),
    ];
    let (_, warnings) = run_throughput(records, 100);

    assert_eq!(warnings.len(), 2);
    assert!(warnings[0].contains("completion without matching submit"));
    assert!(warnings[1].contains("duplicate outstanding submit"));
}

#[test]
fn all_analyses_warn_alike_and_name_the_command() {
    let records = || {
        vec![
            complete(1_000, 1, 2, 1, 10),
            submit(1_010, 2, 2, 1, 10, 100),
            submit(1_020, 3, 2, 1, 10, 200),
            complete(1_030, 4, 2, 1, 10),
        ]
    };
    let expected = vec![
        "completion without matching submit for ctrl=nvme2 qid=1 cid=10".to_string(),
        "duplicate outstanding submit for ctrl=nvme2 qid=1 cid=10".to_string(),
    ];
    assert_eq!(run_throughput(records(), 100).1, expected);
    assert_eq!(run_queue_depth(records(), 100).1, expected);
    assert_eq!(run_queue_depth_percent(records()).1, expected);
}

#[test]
fn a_resubmitted_command_keeps_the_newer_length() {
    let records = vec![
        submit(1_010, 2, 0, 1, 10, 100),
        submit(1_020, 3, 0, 1, 10, 200),
        complete(1_030, 4, 0, 1, 10),
    ];
    let mut warnings: Vec<String> = Vec::new();
    assert_eq!(
        analyze_throughput_records(&records, 100, &mut warnings),
        vec![ThroughputRow { time_ns: 0, bytes: 200 }]
    );
}

#[test]
fn throughput_rows_add_up_to_all_completed_bytes() {
    let mut records = Vec::new();
    let mut total = 0_u128;
    for i in 0..50_u16 {
        let len = 1_000 + i as u32;
        records.push(submit(i as u64 * 10, 0, 0, 1, i, len));
        if i % 3 != 0 {
            records.push(complete(i as u64 * 10 + 5, 0, 0, 1, i));
            total += len as u128;
        }
    }
    for scale in [1, 7, 100, 10_000] {
        let mut warnings: Vec<String> = Vec::new();
        let rows = analyze_throughput_records(&records, scale, &mut warnings);
        assert_eq!(rows.iter().map(|row| row.bytes).sum::<u128>(), total);
        assert!(rows.iter().all(|row| row.time_ns % scale == 0));
        assert!(rows.windows(2).all(|pair| pair[0].time_ns < pair[1].time_ns));
        assert!(warnings.is_empty());
    }
}

#[test]
fn a_record_before_the_first_one_counts_as_no_time() {
    let records = vec![
        submit(1_000, 1, 0, 1, 1, 7),
        complete(900, 2, 0, 1, 1),
    ];
    let mut warnings: Vec<String> = Vec::new();
    assert_eq!(
        analyze_throughput_records(&records, 10, &mut warnings),
        vec![ThroughputRow { time_ns: 0, bytes: 7 }]
    );
}

#[test]
fn no_records_give_headings_alone() {
    assert_eq!(run_throughput(Vec::new(), 5).0, "time_ns\tbytes_per_second\n");
    assert_eq!(
        run_queue_depth(Vec::new(), 5).0,
        "time_ns\tscope\tctrl_id\tqid\tqueue_depth\n"
    );
    assert_eq!(
        run_queue_depth_percent(Vec::new()).0,
        "scope\tctrl_id\tqid\tqueue_depth\tcount\tpercent\n"
    );
}

#[test]
fn each_sample_shows_the_records_up_to_its_time() {
    let records = vec![
        submit(0, 1, 0, 1, 1, 1),
        submit(100, 2, 0, 1, 2, 1),
        submit(100, 3, 0, 1, 3, 1),
        complete(350, 4, 0, 1, 1),
        complete(400, 5, 0, 1, 2),
    ];
    let (output, _) = run_queue_depth(records, 100);
    let depths: Vec<&str> = output
        .lines()
        .filter(|line| line.contains("global"))
        .collect();
    assert_eq!(
        depths,
        vec![
            "0\tglobal\t\t\t1",
            "100\tglobal\t\t\t3",
            "200\tglobal\t\t\t3",
            "300\tglobal\t\t\t3",
            "400\tglobal\t\t\t1",
        ]
    );
}

#[test]
fn a_sample_time_without_successor_is_taken_again() {
    let records = vec![submit(0, 1, 0, 1, 1, 1), complete(u64::MAX, 2, 0, 1, 1)];
    let (output, _) = run_queue_depth(records, u64::MAX - 1);
    assert_eq!(
        output,
        [
            "time_ns\tscope\tctrl_id\tqid\tqueue_depth\n",
            "0\tglobal\t\t\t1\n0\tqueue\t0\t1\t1\n",
            "18446744073709551614\tglobal\t\t\t1\n18446744073709551614\tqueue\t0\t1\t1\n",
            "18446744073709551614\tglobal\t\t\t0\n18446744073709551614\tqueue\t0\t1\t0\n",
        ]
        .concat()
    );
}

#[test]
fn queues_are_listed_by_controller_and_number() {
    let records = vec![
        submit(0, 1, 1, 0, 1, 1),
        submit(0, 2, 0, 9, 1, 1),
        submit(0, 3, 0, 2, 1, 1),
        submit(0, 4, 0, 2, 1, 1),
    ];
    let (output, _) = run_queue_depth(records.clone(), 100);
    assert_eq!(
        output,
        [
            "time_ns\tscope\tctrl_id\tqid\tqueue_depth\n",
            "0\tglobal\t\t\t3\n",
            "0\tqueue\t0\t2\t1\n",
            "0\tqueue\t0\t9\t1\n",
            "0\tqueue\t1\t0\t1\n",
        ]
        .concat()
    );
    let mut warnings: Vec<String> = Vec::new();
    let rows = analyze_queue_depth_percent_records(&records, &mut warnings);
    let queue = |ctrl_id, qid| Some(QueueKey { ctrl_id, qid });
    let row = |queue, depth, count, total| DistributionRow { queue, depth, count, total };
    assert_eq!(
        rows,
        vec![
            row(None, 0, 1, 4),
            row(None, 1, 1, 4),
            row(None, 2, 1, 4),
            row(None, 3, 1, 4),
            row(queue(0, 2), 0, 1, 2),
            row(queue(0, 2), 1, 1, 2),
            row(queue(0, 9), 0, 1, 1),
            row(queue(1, 0), 0, 1, 1),
        ]
    );
    let all: u64 = rows.iter().filter(|row| row.queue.is_none()).map(|row| row.count).sum();
    assert_eq!(all, 4);
}

#[test]
fn the_depth_is_the_sum_over_the_queues() {
    let mut state = QueueDepthState::new();
    let mut warnings: Vec<String> = Vec::new();
    for record in [
        submit(0, 1, 0, 1, 1, 1),
        submit(0, 2, 0, 2, 1, 1),
        submit(0, 3, 0, 2, 2, 1),
        complete(0, 4, 0, 1, 1),
        complete(0, 5, 0, 1, 1),
    ] {
        state.apply_record(&record, &mut warnings);
        let sum: u64 = (0..=255_u8)
            .map(|qid| state.of_queue(QueueKey { ctrl_id: 0, qid }))
            .sum();
        assert_eq!(sum, state.global());
    }
    assert_eq!(state.global(), 2);
    assert_eq!(warnings.len(), 1);
}

#[test]
fn outstanding_commands_are_told_apart_by_all_three_numbers() {
    let mut in_flight = InFlight::new();
    let mut warnings: Vec<String> = Vec::new();
    assert_eq!(in_flight.apply(&submit(0, 0, 1, 2, 3, 50), &mut warnings), Effect::Submitted);
    assert_eq!(in_flight.apply(&complete(0, 0, 1, 2, 4), &mut warnings), Effect::Unmatched);
    assert_eq!(in_flight.apply(&complete(0, 0, 1, 3, 3), &mut warnings), Effect::Unmatched);
    assert_eq!(in_flight.apply(&complete(0, 0, 2, 2, 3), &mut warnings), Effect::Unmatched);
    assert_eq!(in_flight.apply(&submit(0, 0, 1, 2, 3, 60), &mut warnings), Effect::Resubmitted);
    assert_eq!(
        in_flight.apply(&complete(0, 0, 1, 2, 3), &mut warnings),
        Effect::Completed(60)
    );
    let key = CommandKey::from_header(complete(0, 0, 1, 2, 3).header());
    assert_eq!(key, CommandKey { ctrl_id: 1, qid: 2, cid: 3 });
    assert_eq!(key.queue(), QueueKey { ctrl_id: 1, qid: 2 });
    assert_eq!(QueueKey::from_code(key.queue().code()), key.queue());
}

#[test]
fn a_record_that_is_warned_of_moves_no_depth() {
    let queue = |qid| QueueKey { ctrl_id: 0, qid };
    let mut state = QueueDepthState::new();
    let mut warnings: Vec<String> = Vec::new();
    assert_eq!(
        state.apply_record(&complete(0, 1, 0, 3, 1), &mut warnings),
        Effect::Unmatched
    );
    assert_eq!((state.global(), state.of_queue(queue(3))), (0, 0));
    assert_eq!(state.format_sample(7), "7\tglobal\t\t\t0\n");
    assert_eq!(
        state.apply_record(&submit(0, 2, 0, 3, 1, 5), &mut warnings),
        Effect::Submitted
    );
    assert_eq!((state.global(), state.of_queue(queue(3))), (1, 1));
    assert_eq!(
        state.apply_record(&submit(0, 3, 0, 3, 1, 9), &mut warnings),
        Effect::Resubmitted
    );
    assert_eq!((state.global(), state.of_queue(queue(3))), (1, 1));
    assert_eq!(
        state.apply_record(&complete(0, 4, 0, 3, 1), &mut warnings),
        Effect::Completed(9)
    );
    assert_eq!((state.global(), state.of_queue(queue(3))), (0, 0));
    assert_eq!(state.format_sample(8), "8\tglobal\t\t\t0\n8\tqueue\t0\t3\t0\n");
    assert_eq!(warnings.len(), 2);
}

/// A text sink that takes so many characters and fails with the next.
struct Full {
    room: usize,
    text: String,
}

impl TextSink for Full {
    fn write_text(&mut self, text: &str) -> Result<(), std::io::Error> {
        for c in text.chars() {
            if self.text.chars().count() == self.room {
                return Err(std::io::Error::new(std::io::ErrorKind::Other, "no room"));
            }
            self.text.push(c);
        }
        Ok(())
    }
}

#[test]
fn a_failing_output_ends_the_samples() {
    let records = vec![submit(0, 1, 0, 1, 1, 1), complete(500, 2, 0, 1, 1)];
    let (whole, _) = run_queue_depth(records.clone(), 100);
    for room in [0, 10, 45, 60, 100] {
        let mut output = Full { room, text: String::new() };
        let mut warnings: Vec<String> = Vec::new();
        let err = analyze_queue_depth_records(&records, 100, &mut output, &mut warnings)
            .unwrap_err();
        assert_eq!(err.to_string(), "no room");
        assert_eq!(output.text, whole[..room]);
    }
}

fn run_throughput(records: Vec<TraceRecord>, scale_ns: u64) -> (String, Vec<String>) {
    let mut warnings: Vec<String> = Vec::new();
    let rows = analyze_throughput_records(&records, scale_ns, &mut warnings);
    let rates: Vec<String> = rows
        .iter()
        .map(|row| {
            let rate = row.bytes as f64 * 1_000_000_000_f64 / scale_ns as f64;
            format!("{rate:.6}")
        })
        .collect();
    (format_throughput(&rows, &rates), warnings)
}

fn run_queue_depth(records: Vec<TraceRecord>, scale_ns: u64) -> (String, Vec<String>) {
    let mut output = String::new();
    let mut warnings: Vec<String> = Vec::new();
    analyze_queue_depth_records(&records, scale_ns, &mut output, &mut warnings).unwrap();
    (output, warnings)
}

fn run_queue_depth_percent(records: Vec<TraceRecord>) -> (String, Vec<String>) {
    let mut warnings: Vec<String> = Vec::new();
    let rows = analyze_queue_depth_percent_records(&records, &mut warnings);
    let percents: Vec<String> = rows
        .iter()
        .map(|row| {
            let percent = if row.total == 0 {
                0.0
            } else {
                row.count as f64 * 100.0 / row.total as f64
            };
            format!("{percent:.6}")
        })
        .collect();
    (format_distribution(&rows, &percents), warnings)
}

fn submit(
    timestamp_ns: u64,
    seq: u32,
    ctrl_id: u8,
    qid: u8,
    cid: u16,
    data_len: u32,
) -> TraceRecord {
    TraceRecord::Submit(SubmitRecord {
        header: header(NVME_TRACE_SUBMIT, timestamp_ns, seq, ctrl_id, qid, cid),
        sqe: [0; SQE_LEN],
        data_len,
        meta_len: 0,
        use_sgl: false,
        single_segment: false,
        nr_entries: 0,
        tail: SubmitTail::Prp(Vec::new()),
    })
}

fn complete(timestamp_ns: u64, seq: u32, ctrl_id: u8, qid: u8, cid: u16) -> TraceRecord {
    TraceRecord::Complete(CompleteRecord {
        header: header(NVME_TRACE_COMPLETE, timestamp_ns, seq, ctrl_id, qid, cid),
        result: 0,
        sq_head: 0,
        sq_id: qid.into(),
        status: 0,
        retries: 0,
    })
}

fn header(
    record_type: u8,
    timestamp_ns: u64,
    seq: u32,
    ctrl_id: u8,
    qid: u8,
    cid: u16,
) -> Header {
    Header {
        magic: NVME_TRACE_MAGIC,
        version: NVME_TRACE_VERSION,
        record_type,
        len: 0,
        timestamp_ns,
        seq,
        ctrl_id,
        qid,
        cid,
    }
}
