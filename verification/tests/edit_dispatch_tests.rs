use pruner::align::{align_comments, CommentNode, SiblingInfo};
use pruner::config::FormatterSpec;
use pruner::dispatch::{adjusted_print_width, build_invocation, evaluate_formatter_outcome, u32_to_dec};
use pruner::edits::{apply_edits, Edit};
use pruner::plugin::FormatError;
use pruner::regions::{normalize_regions, ByteRange, InjectedRegion, InjectionOpts};
use pruner::ts::{raw_to_regions, RawInjection};

#[test]
fn apply_edits_matches_one_by_one_application() {
    // edits already sorted descending and non-overlapping: the batch result
    // equals splicing them one by one
    let buf = b"0123456789".to_vec();
    let edits = vec![
        Edit {
            start_byte: 7,
            end_byte: 9,
            replacement: b"XYZ".to_vec(),
        },
        Edit {
            start_byte: 2,
            end_byte: 4,
            replacement: b"".to_vec(),
        },
    ];
    let batch = apply_edits(buf.clone(), edits);

    let mut step = buf;
    step = [&step[..7], b"XYZ", &step[9..]].concat();
    step = [&step[..2], b"", &step[4..]].concat();
    assert_eq!(batch, step);
    assert_eq!(batch, b"01456XYZ9".to_vec());
}

#[test]
fn apply_edits_sorts_before_splicing() {
    let buf = b"abcdef".to_vec();
    let edits = vec![
        Edit {
            start_byte: 1,
            end_byte: 2,
            replacement: b"B".to_vec(),
        },
        Edit {
            start_byte: 4,
            end_byte: 5,
            replacement: b"E".to_vec(),
        },
    ];
    assert_eq!(apply_edits(buf, edits), b"aBcdEf".to_vec());
}

#[test]
fn print_width_is_floored_at_one() {
    assert_eq!(adjusted_print_width(80, 20), 60);
    assert_eq!(adjusted_print_width(25, 20), 5);
    assert_eq!(adjusted_print_width(20, 20), 1);
    assert_eq!(adjusted_print_width(10, 25), 1);
}

#[test]
fn decimal_formatting_is_exact() {
    assert_eq!(u32_to_dec(0), b"0".to_vec());
    assert_eq!(u32_to_dec(7), b"7".to_vec());
    assert_eq!(u32_to_dec(80), b"80".to_vec());
    assert_eq!(u32_to_dec(4294967295), b"4294967295".to_vec());
}

#[test]
fn invocation_substitutes_width_and_language() {
    let spec = FormatterSpec {
        cmd: "prettier".to_string(),
        args: vec![
            "--print-width=$textwidth".to_string(),
            "--parser".to_string(),
            "$language".to_string(),
            "$file".to_string(),
        ],
        stdin: None,
        fail_on_stderr: Some(true),
    };
    let inv = build_invocation(&spec, 72, &"markdown".to_string());
    assert_eq!(inv.cmd, "prettier");
    assert!(inv.use_stdin);
    assert!(inv.fail_on_stderr);
    assert_eq!(inv.args[0], b"--print-width=72".to_vec());
    assert_eq!(inv.args[1], b"--parser".to_vec());
    assert_eq!(inv.args[2], b"markdown".to_vec());
    assert_eq!(inv.args[3], b"$file".to_vec());
}

#[test]
fn formatter_outcome_policy() {
    let cmd = "fmt".to_string();
    let ok = evaluate_formatter_outcome(true, true, true, b"out".to_vec(), &cmd);
    assert_eq!(ok.unwrap(), b"out".to_vec());

    let bad_exit = evaluate_formatter_outcome(false, true, false, b"out".to_vec(), &cmd);
    assert!(matches!(
        bad_exit,
        Err(FormatError::FormatterInvocationError(_))
    ));

    let stderr_fatal = evaluate_formatter_outcome(true, false, true, b"out".to_vec(), &cmd);
    assert!(matches!(
        stderr_fatal,
        Err(FormatError::FormatterInvocationError(_))
    ));

    let stderr_tolerated = evaluate_formatter_outcome(true, false, false, b"out".to_vec(), &cmd);
    assert_eq!(stderr_tolerated.unwrap(), b"out".to_vec());
}

#[test]
fn normalize_drops_empty_and_out_of_range_regions() {
    let mk = |s: usize, e: usize| InjectedRegion {
        range: ByteRange {
            start_byte: s,
            end_byte: e,
        },
        lang: "x".to_string(),
        opts: InjectionOpts {
            escape_chars: Vec::new(),
        },
    };
    let out = normalize_regions(vec![mk(3, 3), mk(2, 5), mk(6, 42), mk(0, 1)], 10).unwrap();
    // survivors come back in descending start order
    let starts: Vec<usize> = out.iter().map(|r| r.range.start_byte).collect();
    assert_eq!(starts, vec![2, 0]);
}

#[test]
fn normalize_rejects_partial_overlap() {
    let mk = |s: usize, e: usize| InjectedRegion {
        range: ByteRange {
            start_byte: s,
            end_byte: e,
        },
        lang: "x".to_string(),
        opts: InjectionOpts {
            escape_chars: Vec::new(),
        },
    };
    let out = normalize_regions(vec![mk(0, 5), mk(3, 8)], 10);
    assert!(matches!(out, Err(FormatError::OverlapError)));
}

#[test]
fn normalize_keeps_the_outermost_of_nested_regions() {
    let mk = |s: usize, e: usize| InjectedRegion {
        range: ByteRange {
            start_byte: s,
            end_byte: e,
        },
        lang: "x".to_string(),
        opts: InjectionOpts {
            escape_chars: Vec::new(),
        },
    };
    let out = normalize_regions(vec![mk(2, 4), mk(0, 8)], 10).unwrap();
    let ranges: Vec<(usize, usize)> = out
        .iter()
        .map(|r| (r.range.start_byte, r.range.end_byte))
        .collect();
    assert_eq!(ranges, vec![(0, 8)]);
}

#[test]
fn align_rejects_records_with_overlapping_edits() {
    // two double-semicolon comments on one line: their indentation edits
    // would overlap, which a real parse never produces
    let source = b";;;;;;".to_vec();
    let sibling = SiblingInfo {
        start_byte: 90,
        end_byte: 91,
        start_row: 9,
        start_col: 0,
    };
    let mk = |start: usize, col: usize| CommentNode {
        start_byte: start,
        end_byte: start + 4,
        start_row: 0,
        start_col: col,
        prev: None,
        next: Some(sibling),
    };
    let records = vec![mk(2, 7), mk(4, 9)];
    let out = align_comments(source, &records);
    assert!(matches!(out, Err(FormatError::OverlapError)));
}

#[test]
fn escape_property_splits_per_character_and_drops_duplicates() {
    let raw = RawInjection {
        start_byte: 0,
        end_byte: 4,
        lang: "sql".to_string(),
        // a two-byte character, a quote, the same character again, the
        // same quote again: two distinct tokens
        escape_chars_raw: "\u{ab}\"\u{ab}\"".to_string(),
    };
    let regions = raw_to_regions(vec![raw]);
    assert_eq!(regions.len(), 1);
    assert_eq!(
        regions[0].opts.escape_chars,
        vec![vec![0xC2u8, 0xABu8], vec![b'"']]
    );
}
