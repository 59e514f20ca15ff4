use pruner::config::{FormatterSpec, GrammarEntry, LanguageChain, NamedFormatter};
use pruner::dispatch::Invocation;
use pruner::driver::{FormatContext, FormatPorts};
use pruner::native::NativePorts;
use pruner::plugin::{FormatError, FormatOpts};
use pruner::regions::{ByteRange, InjectedRegion, InjectionOpts};

fn clojure_grammar(query: &str) -> Vec<GrammarEntry> {
    vec![GrammarEntry {
        language: "clojure".to_string(),
        injections_query: query.to_string(),
    }]
}

fn no_chains() -> Vec<LanguageChain> {
    Vec::new()
}

fn no_formatters() -> Vec<NamedFormatter> {
    Vec::new()
}

fn root_cause(e: &FormatError) -> &FormatError {
    match e {
        FormatError::RegionError { cause, .. } => root_cause(cause),
        other => other,
    }
}

#[test]
fn unknown_root_language_returns_input_unchanged() {
    let grammars = clojure_grammar("(kwd_lit) @injection.content");
    let languages = no_chains();
    let formatters = no_formatters();
    let context = FormatContext {
        grammars: &grammars,
        languages: &languages,
        formatters: &formatters,
    };
    let source = b"def f(): pass\n".to_vec();
    let opts = FormatOpts {
        printwidth: 80,
        language: "python".to_string(),
    };
    let out = pruner::driver::format(&NativePorts, &source, &opts, false, &context).unwrap();
    assert_eq!(out, source);
}

#[test]
fn no_formatter_and_no_injections_returns_input_unchanged() {
    // known grammar, no formatter chain, and a query that matches nothing
    let grammars = clojure_grammar("(kwd_lit) @injection.content");
    let languages = no_chains();
    let formatters = no_formatters();
    let context = FormatContext {
        grammars: &grammars,
        languages: &languages,
        formatters: &formatters,
    };
    let source = b"(defn foo [] (println \"hello\"))\n".to_vec();
    let opts = FormatOpts {
        printwidth: 80,
        language: "clojure".to_string(),
    };
    let out = pruner::driver::format(&NativePorts, &source, &opts, false, &context).unwrap();
    assert_eq!(out, source);
}

#[test]
fn injected_region_of_unknown_language_survives_verbatim() {
    // injected-regions-only mode: the string literal is extracted, but its
    // language has no grammar, so its bytes round-trip unchanged
    let grammars = clojure_grammar(
        "((str_lit) @injection.content (#set! injection.language \"sql\"))",
    );
    let languages = no_chains();
    let formatters = no_formatters();
    let context = FormatContext {
        grammars: &grammars,
        languages: &languages,
        formatters: &formatters,
    };
    let source = b"(def q\n  \"select * from t\")\n".to_vec();
    let opts = FormatOpts {
        printwidth: 80,
        language: "clojure".to_string(),
    };
    let out = pruner::driver::format(&NativePorts, &source, &opts, true, &context).unwrap();
    assert_eq!(out, source);
}

#[test]
fn root_formatter_runs_through_the_chain() {
    let grammars = clojure_grammar("(kwd_lit) @injection.content");
    let languages = vec![LanguageChain {
        language: "clojure".to_string(),
        formatters: vec!["align-comments".to_string()],
    }];
    let formatters = vec![NamedFormatter {
        name: "align-comments".to_string(),
        spec: FormatterSpec {
            cmd: "align-comments".to_string(),
            args: Vec::new(),
            stdin: None,
            fail_on_stderr: None,
        },
    }];
    let context = FormatContext {
        grammars: &grammars,
        languages: &languages,
        formatters: &formatters,
    };
    let source = b"(defn foo []\n;; Comment 1\n;; Comment 2\n  (println \"hello\"))".to_vec();
    let expected =
        b"(defn foo []\n  ;; Comment 1\n  ;; Comment 2\n  (println \"hello\"))".to_vec();
    let opts = FormatOpts {
        printwidth: 80,
        language: "clojure".to_string(),
    };
    let out = pruner::driver::format(&NativePorts, &source, &opts, false, &context).unwrap();
    assert_eq!(out, expected);
}

struct CannedPorts {
    formatter_output: Vec<u8>,
    regions: Vec<(usize, usize, String)>,
    escape_chars: Vec<Vec<u8>>,
}

impl FormatPorts for CannedPorts {
    fn run_formatter(
        &self,
        _name: &String,
        _inv: &Invocation,
        _opts: &FormatOpts,
        _source: &Vec<u8>,
    ) -> Result<Vec<u8>, FormatError> {
        Ok(self.formatter_output.clone())
    }

    fn extract_injections(
        &self,
        _language: &String,
        _injections_query: &String,
        _source: &Vec<u8>,
    ) -> Result<Vec<InjectedRegion>, FormatError> {
        Ok(self
            .regions
            .iter()
            .map(|(s, e, lang)| InjectedRegion {
                range: ByteRange {
                    start_byte: *s,
                    end_byte: *e,
                },
                lang: lang.clone(),
                opts: InjectionOpts {
                    escape_chars: self.escape_chars.clone(),
                },
            })
            .collect())
    }
}

fn one_language_context(
    grammars: &[&str],
) -> (Vec<GrammarEntry>, Vec<LanguageChain>, Vec<NamedFormatter>) {
    let gs = grammars
        .iter()
        .map(|l| GrammarEntry {
            language: l.to_string(),
            injections_query: String::new(),
        })
        .collect();
    let languages = vec![LanguageChain {
        language: "clojure".to_string(),
        formatters: vec!["fmt".to_string()],
    }];
    let formatters = vec![NamedFormatter {
        name: "fmt".to_string(),
        spec: FormatterSpec {
            cmd: "fmt".to_string(),
            args: vec!["--width".to_string(), "$textwidth".to_string()],
            stdin: Some(true),
            fail_on_stderr: None,
        },
    }];
    (gs, languages, formatters)
}

#[test]
fn driver_uses_formatter_output_as_working_buffer() {
    let (grammars, languages, formatters) = one_language_context(&["clojure"]);
    let context = FormatContext {
        grammars: &grammars,
        languages: &languages,
        formatters: &formatters,
    };
    let ports = CannedPorts {
        formatter_output: b"formatted".to_vec(),
        regions: Vec::new(),
        escape_chars: Vec::new(),
    };
    let opts = FormatOpts {
        printwidth: 80,
        language: "clojure".to_string(),
    };
    let out = pruner::driver::format(&ports, &b"original".to_vec(), &opts, false, &context).unwrap();
    assert_eq!(out, b"formatted".to_vec());

    // skip_root leaves the buffer alone
    let out = pruner::driver::format(&ports, &b"original".to_vec(), &opts, true, &context).unwrap();
    assert_eq!(out, b"original".to_vec());
}

#[test]
fn overlapping_injections_are_an_error() {
    let (grammars, languages, formatters) = one_language_context(&["clojure"]);
    let context = FormatContext {
        grammars: &grammars,
        languages: &languages,
        formatters: &formatters,
    };
    let ports = CannedPorts {
        formatter_output: b"0123456789".to_vec(),
        regions: vec![
            (0, 5, "sql".to_string()),
            (3, 8, "sql".to_string()),
        ],
        escape_chars: Vec::new(),
    };
    let opts = FormatOpts {
        printwidth: 80,
        language: "clojure".to_string(),
    };
    let out = pruner::driver::format(&ports, &b"0123456789".to_vec(), &opts, false, &context);
    assert!(matches!(out, Err(FormatError::OverlapError)));
}

#[test]
fn contained_injection_loses_to_the_outermost() {
    let (grammars, languages, formatters) = one_language_context(&["clojure"]);
    let context = FormatContext {
        grammars: &grammars,
        languages: &languages,
        formatters: &formatters,
    };
    // the inner region would be spliced differently, but outermost wins;
    // both have unknown languages, so the buffer survives unchanged
    let ports = CannedPorts {
        formatter_output: b"0123456789".to_vec(),
        regions: vec![
            (0, 8, "sql".to_string()),
            (2, 5, "css".to_string()),
            (0, 0, "md".to_string()),
            (4, 99, "md".to_string()),
        ],
        escape_chars: Vec::new(),
    };
    let opts = FormatOpts {
        printwidth: 80,
        language: "clojure".to_string(),
    };
    let out = pruner::driver::format(&ports, &b"0123456789".to_vec(), &opts, false, &context).unwrap();
    assert_eq!(out, b"0123456789".to_vec());
}

#[test]
fn self_injection_exhausts_the_recursion_budget() {
    let (grammars, languages, formatters) = one_language_context(&["clojure", "sql"]);
    let context = FormatContext {
        grammars: &grammars,
        languages: &languages,
        formatters: &formatters,
    };
    let ports = CannedPorts {
        formatter_output: b"0123456789".to_vec(),
        regions: vec![(0, 10, "clojure".to_string())],
        escape_chars: Vec::new(),
    };
    let opts = FormatOpts {
        printwidth: 80,
        language: "clojure".to_string(),
    };
    let out = pruner::driver::format(&ports, &b"0123456789".to_vec(), &opts, false, &context);
    let err = out.unwrap_err();
    assert!(matches!(
        err,
        FormatError::RegionError {
            ref language,
            start_byte: 0,
            end_byte: 10,
            ..
        } if language == "clojure"
    ));
    assert!(matches!(root_cause(&err), FormatError::RecursionLimitError));
}

#[test]
fn two_runs_produce_identical_output() {
    let grammars = clojure_grammar("((str_lit) @injection.content (#set! injection.language \"sql\"))");
    let languages = vec![LanguageChain {
        language: "clojure".to_string(),
        formatters: vec!["trim-newlines".to_string()],
    }];
    let formatters = vec![NamedFormatter {
        name: "trim-newlines".to_string(),
        spec: FormatterSpec {
            cmd: "trim-newlines".to_string(),
            args: Vec::new(),
            stdin: None,
            fail_on_stderr: None,
        },
    }];
    let context = FormatContext {
        grammars: &grammars,
        languages: &languages,
        formatters: &formatters,
    };
    let source = b"\n\n(def q \"select * from t\")\n\n".to_vec();
    let opts = FormatOpts {
        printwidth: 80,
        language: "clojure".to_string(),
    };
    let first = pruner::driver::format(&NativePorts, &source, &opts, false, &context).unwrap();
    let second = pruner::driver::format(&NativePorts, &source, &opts, false, &context).unwrap();
    assert_eq!(first, second);
}

#[test]
fn region_trailing_newline_policy() {
    // a region whose slice ends with a newline keeps exactly one; one whose
    // slice does not gets none, whatever the sub-format produced
    let (grammars, languages, formatters) = one_language_context(&["clojure", "sql"]);
    let context = FormatContext {
        grammars: &grammars,
        languages: &languages,
        formatters: &formatters,
    };
    // region [5, 11) of the root buffer is "b\nc\nd\n" (ends with newline,
    // begins at column zero); sql has a grammar but no formatter and no
    // injections, so the region round-trips through trim with its single
    // trailing newline kept
    let root = b"head\nb\nc\nd\n tail".to_vec();
    let ports = CannedPorts {
        formatter_output: root.clone(),
        regions: vec![(5, 11, "sql".to_string())],
        escape_chars: Vec::new(),
    };
    let opts = FormatOpts {
        printwidth: 80,
        language: "clojure".to_string(),
    };
    let out = pruner::driver::format(&ports, &root, &opts, false, &context).unwrap();
    assert_eq!(out, root);
}

#[test]
fn escape_chars_round_trip_through_a_region() {
    // the region's escaped quotes are unescaped before the sub-format and
    // the sub-result's bare quotes are re-escaped before splicing
    let grammars = vec![
        GrammarEntry {
            language: "clojure".to_string(),
            injections_query: String::new(),
        },
        GrammarEntry {
            language: "txt".to_string(),
            injections_query: String::new(),
        },
    ];
    let languages = vec![LanguageChain {
        language: "txt".to_string(),
        formatters: vec!["fmt".to_string()],
    }];
    let formatters = vec![NamedFormatter {
        name: "fmt".to_string(),
        spec: FormatterSpec {
            cmd: "fmt".to_string(),
            args: Vec::new(),
            stdin: None,
            fail_on_stderr: None,
        },
    }];
    let context = FormatContext {
        grammars: &grammars,
        languages: &languages,
        formatters: &formatters,
    };
    let backslash = 92u8;
    let quote = 34u8;
    // region [2, 8) of the buffer holds an escaped string body
    let root = vec![
        b'0', b'1', backslash, quote, b'a', b'b', backslash, quote, b'8', b'9',
    ];
    let ports = CannedPorts {
        formatter_output: vec![b'X', quote, b'Y'],
        regions: vec![(2, 8, "txt".to_string())],
        escape_chars: vec![vec![quote]],
    };
    let opts = FormatOpts {
        printwidth: 80,
        language: "clojure".to_string(),
    };
    let out = pruner::driver::format(&ports, &root, &opts, true, &context).unwrap();
    let expected = vec![b'0', b'1', b'X', backslash, quote, b'Y', b'8', b'9'];
    assert_eq!(out, expected);
}

#[test]
fn trailing_newlines_of_a_sub_result_are_trimmed_to_the_slice_policy() {
    let grammars = vec![
        GrammarEntry {
            language: "clojure".to_string(),
            injections_query: String::new(),
        },
        GrammarEntry {
            language: "txt".to_string(),
            injections_query: String::new(),
        },
    ];
    let languages = vec![LanguageChain {
        language: "txt".to_string(),
        formatters: vec!["fmt".to_string()],
    }];
    let formatters = vec![NamedFormatter {
        name: "fmt".to_string(),
        spec: FormatterSpec {
            cmd: "fmt".to_string(),
            args: Vec::new(),
            stdin: None,
            fail_on_stderr: None,
        },
    }];
    let context = FormatContext {
        grammars: &grammars,
        languages: &languages,
        formatters: &formatters,
    };
    let opts = FormatOpts {
        printwidth: 80,
        language: "clojure".to_string(),
    };

    // the slice [5, 7) ends with a newline: the sub-result keeps exactly one
    let root = b"head\nQ\ntail".to_vec();
    let ports = CannedPorts {
        formatter_output: b"R\n\n\n".to_vec(),
        regions: vec![(5, 7, "txt".to_string())],
        escape_chars: Vec::new(),
    };
    let out = pruner::driver::format(&ports, &root, &opts, true, &context).unwrap();
    assert_eq!(out, b"head\nR\ntail".to_vec());

    // the slice [5, 6) has no trailing newline: the sub-result gets none
    let root = b"head\nQ tail".to_vec();
    let ports = CannedPorts {
        formatter_output: b"R\n\n".to_vec(),
        regions: vec![(5, 6, "txt".to_string())],
        escape_chars: Vec::new(),
    };
    let out = pruner::driver::format(&ports, &root, &opts, true, &context).unwrap();
    assert_eq!(out, b"head\nR tail".to_vec());
}

struct FailingFormatterPorts {
    regions: Vec<(usize, usize, String)>,
}

impl FormatPorts for FailingFormatterPorts {
    fn run_formatter(
        &self,
        name: &String,
        _inv: &Invocation,
        _opts: &FormatOpts,
        _source: &Vec<u8>,
    ) -> Result<Vec<u8>, FormatError> {
        Err(FormatError::FormatterInvocationError(name.clone()))
    }

    fn extract_injections(
        &self,
        _language: &String,
        _injections_query: &String,
        _source: &Vec<u8>,
    ) -> Result<Vec<InjectedRegion>, FormatError> {
        Ok(self
            .regions
            .iter()
            .map(|(s, e, lang)| InjectedRegion {
                range: ByteRange {
                    start_byte: *s,
                    end_byte: *e,
                },
                lang: lang.clone(),
                opts: InjectionOpts {
                    escape_chars: Vec::new(),
                },
            })
            .collect())
    }
}

#[test]
fn region_failure_carries_language_and_byte_range() {
    let grammars = vec![
        GrammarEntry {
            language: "clojure".to_string(),
            injections_query: String::new(),
        },
        GrammarEntry {
            language: "txt".to_string(),
            injections_query: String::new(),
        },
    ];
    let languages = vec![LanguageChain {
        language: "txt".to_string(),
        formatters: vec!["fmt".to_string()],
    }];
    let formatters = vec![NamedFormatter {
        name: "fmt".to_string(),
        spec: FormatterSpec {
            cmd: "fmt".to_string(),
            args: Vec::new(),
            stdin: None,
            fail_on_stderr: None,
        },
    }];
    let context = FormatContext {
        grammars: &grammars,
        languages: &languages,
        formatters: &formatters,
    };
    let ports = FailingFormatterPorts {
        regions: vec![(2, 5, "txt".to_string())],
    };
    let opts = FormatOpts {
        printwidth: 80,
        language: "clojure".to_string(),
    };
    let out = pruner::driver::format(&ports, &b"0123456789".to_vec(), &opts, true, &context);
    let err = out.unwrap_err();
    assert!(matches!(
        err,
        FormatError::RegionError {
            ref language,
            start_byte: 2,
            end_byte: 5,
            ..
        } if language == "txt"
    ));
    assert!(matches!(
        root_cause(&err),
        FormatError::FormatterInvocationError(cmd) if cmd == "fmt"
    ));
}
