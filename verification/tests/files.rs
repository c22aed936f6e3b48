//! File names, sorting and text.

use nvme_trace::names::{
    discover_trace_files, expand_input_paths, expand_trace_dir, join_path, output_file_for_cpu,
    parse_cpu_bin, parse_trace_cpu, require_inputs, require_trace_files, sort_input_path,
    FileName, NoFiles,
};
use nvme_trace::sorting::sorted_order;
use nvme_trace::text::{
    chars_of, final_word, is_whitespace, next_line, parse_number, push_decimal,
    push_decimal_padded, push_hex, trim,
};

#[test]
fn parses_trace_cpu_names() {
    assert_eq!(parse_trace_cpu("trace0"), Some(0));
    assert_eq!(parse_trace_cpu("trace123"), Some(123));
    assert_eq!(parse_trace_cpu("trace"), None);
    assert_eq!(parse_trace_cpu("traceabc"), None);
    assert_eq!(parse_trace_cpu("enable"), None);
}

#[test]
fn maps_output_file_for_cpu() {
    assert_eq!(output_file_for_cpu("traces/nvme0", 7), "traces/nvme0/cpu7.bin");
}

#[test]
fn parses_cpu_bin_names() {
    assert_eq!(parse_cpu_bin("cpu0.bin"), Some(0));
    assert_eq!(parse_cpu_bin("cpu42.bin"), Some(42));
    assert_eq!(parse_cpu_bin("cpu.bin"), None);
    assert_eq!(parse_cpu_bin("trace0"), None);
    assert_eq!(parse_cpu_bin("spliced.bin"), None);
}

#[test]
fn processor_numbers_are_digits_that_fit() {
    assert_eq!(parse_trace_cpu("trace+1"), None);
    assert_eq!(parse_trace_cpu("trace007"), Some(7));
    assert_eq!(parse_trace_cpu("trace4294967295"), Some(u32::MAX));
    assert_eq!(parse_trace_cpu("trace4294967296"), None);
    assert_eq!(parse_cpu_bin("cpu+1.bin"), None);
    assert_eq!(parse_cpu_bin("cpu4294967296.bin"), None);
    assert_eq!(parse_cpu_bin("cpu1.bin.bin"), None);
    assert_eq!(parse_cpu_bin("Cpu1.bin"), None);
    assert_eq!(parse_cpu_bin("cpu1.bi"), None);
    assert_eq!(parse_trace_cpu("trace١"), None);
}

#[test]
fn paths_join_as_the_system_joins_them() {
    for (dir, name) in [("a", "b"), ("a/", "b"), ("", "b"), ("/", "b"), ("/x/y", "c/d")] {
        assert_eq!(
            join_path(dir, name),
            std::path::Path::new(dir).join(name).display().to_string()
        );
    }
}

fn file(name: &str, path: &str) -> FileName {
    FileName { name: name.to_string(), path: path.to_string() }
}

#[test]
fn inputs_are_read_by_processor_then_path() {
    let files = vec![
        file("cpu10.bin", "d/cpu10.bin"),
        file("cpu2.bin", "d/cpu2.bin"),
        file("z.bin", "z.bin"),
        file("cpu2.bin", "c/cpu2.bin"),
        file("a.bin", "a.bin"),
        file("cpu2.bin", "c/cpu2.bin"),
    ];
    assert_eq!(expand_input_paths(&files), vec![4, 2, 3, 5, 1, 0]);
    assert_eq!(expand_trace_dir(&files), vec![3, 5, 1, 0]);

    let mut expected: Vec<usize> = (0..files.len()).collect();
    expected.sort_by_key(|i| (parse_cpu_bin(&files[*i].name), files[*i].path.clone()));
    assert_eq!(expand_input_paths(&files), expected);

    let key = sort_input_path(&files[0]);
    assert_eq!(key.cpu, Some(10));
    assert_eq!(key.path, "d/cpu10.bin");
}

#[test]
fn relay_files_are_found_by_processor() {
    let names: Vec<String> = ["trace10", "enable", "trace2", "trace", "trace02"]
        .iter()
        .map(|name| name.to_string())
        .collect();
    let files = discover_trace_files(&names);
    let found: Vec<(u32, usize)> = files.iter().map(|file| (file.cpu, file.index)).collect();
    assert_eq!(found, vec![(2, 2), (2, 4), (10, 0)]);
}

#[test]
fn there_must_be_something_to_capture_and_to_read() {
    let none = require_trace_files("/d", &vec!["enable".to_string()]).unwrap_err();
    assert_eq!(none, NoFiles::TraceFiles { dir: "/d".to_string() });
    assert_eq!(none.message(), "no trace<cpu> files found under /d");
    let names = vec!["trace3".to_string(), "trace1".to_string()];
    assert_eq!(require_trace_files("/d", &names), Ok(discover_trace_files(&names)));

    let none = require_inputs(&Vec::new()).unwrap_err();
    assert_eq!(none, NoFiles::Inputs);
    assert_eq!(none.message(), "no input trace files found");
    let files = vec![file("b", "b"), file("a", "a")];
    assert_eq!(require_inputs(&files), Ok(vec![1, 0]));
}

#[test]
fn sorting_is_stable() {
    let keys: Vec<u32> = vec![5, 1, 5, 0, 1, 9, 5];
    let mut expected: Vec<usize> = (0..keys.len()).collect();
    expected.sort_by_key(|i| keys[*i]);
    assert_eq!(sorted_order(&keys), expected);
    assert!(sorted_order::<u32>(&Vec::new()).is_empty());
}

#[test]
fn white_space_is_that_of_unicode() {
    for n in 0..=0x10ffff_u32 {
        if let Some(c) = char::from_u32(n) {
            assert_eq!(is_whitespace(c), c.is_whitespace());
        }
    }
}

#[test]
fn numbers_are_written_as_the_formatter_writes_them() {
    for n in [0_u128, 9, 10, 4096, u64::MAX as u128, u128::MAX] {
        let mut out = String::new();
        push_decimal(&mut out, n);
        assert_eq!(out, n.to_string());
    }
    for n in [0_u64, 1, 0xf, 0x10, 0xdead_beef, u64::MAX] {
        let mut out = String::new();
        push_hex(&mut out, n, 8);
        assert_eq!(out, format!("{n:08x}"));
        let mut out = String::new();
        push_decimal_padded(&mut out, n, 10);
        assert_eq!(out, format!("{n:<10}"));
    }
}

#[test]
fn numbers_are_read_as_the_parser_reads_them() {
    for text in [
        "", "+", "-1", "0", "+7", "++7", "007", "12a", " 1", "65535", "65536",
        "18446744073709551615", "18446744073709551616", "99999999999999999999999",
    ] {
        assert_eq!(parse_number(&chars_of(text), u64::MAX), text.parse::<u64>().ok());
        assert_eq!(
            parse_number(&chars_of(text), u16::MAX as u64),
            text.parse::<u16>().ok().map(u64::from)
        );
    }
}

#[test]
fn text_is_split_as_the_standard_library_splits_it() {
    for text in [
        "", "\n", "a", "a\n", "a\r\nb\r", "\r\n\r\n", "a\n\nb", " \t x y \u{3000}", "\u{2028}q ",
    ] {
        let chars = chars_of(text);
        let mut rest = chars.as_slice();
        let mut lines = Vec::new();
        while !rest.is_empty() {
            let (line, next) = next_line(rest);
            lines.push(line.iter().collect::<String>());
            rest = next;
        }
        assert_eq!(lines, text.lines().map(str::to_string).collect::<Vec<_>>());
        assert_eq!(trim(&chars).iter().collect::<String>(), text.trim());
        assert_eq!(
            final_word(&chars).map(|word| word.iter().collect::<String>()),
            text.split_whitespace().last().map(str::to_string)
        );
    }
}
