use pruner::driver::FormatPorts;
use pruner::native::NativePorts;
use pruner::plugin::{FormatError, FormatOpts, PluginApi};
use pruner::trim_newlines::TrimNewlines;

#[test]
fn format_test() -> Result<(), FormatError> {
    let source = "\n\nabc\n\n\n";
    let result = TrimNewlines::format(
        source.as_bytes().to_vec(),
        FormatOpts {
            printwidth: 80,
            language: "na".to_string(),
        },
    )?;
    assert_eq!(String::from_utf8_lossy(&result), "abc");
    Ok(())
}

#[test]
fn lib_format_test() -> Result<(), FormatError> {
    let source = "\n\nabc\n\n\n";
    let result = TrimNewlines::format(
        source.as_bytes().to_vec(),
        FormatOpts {
            printwidth: 80,
            language: "na".to_string(),
        },
    )?;
    assert_eq!(String::from_utf8_lossy(&result), "abc");
    Ok(())
}

#[test]
fn trim_handles_carriage_returns() {
    let result = pruner::trim_newlines::trim_surrounding_newlines(&b"\r\n\rab\rc\n\r".to_vec());
    assert_eq!(result, b"ab\rc".to_vec());
}

#[test]
fn trim_all_newlines_gives_empty() {
    let result = pruner::trim_newlines::trim_surrounding_newlines(&b"\n\r\n".to_vec());
    assert_eq!(result, Vec::<u8>::new());
}

#[test]
fn trim_newlines_runs_through_native_ports() {
    let ports = NativePorts;
    let inv = pruner::dispatch::Invocation {
        cmd: String::new(),
        args: Vec::new(),
        use_stdin: true,
        fail_on_stderr: false,
    };
    let opts = FormatOpts {
        printwidth: 80,
        language: "clojure".to_string(),
    };
    let out = ports
        .run_formatter(&"trim-newlines".to_string(), &inv, &opts, &b"\nx\n".to_vec())
        .unwrap();
    assert_eq!(out, b"x".to_vec());

    let err = ports.run_formatter(&"nope".to_string(), &inv, &opts, &b"x".to_vec());
    assert!(matches!(
        err,
        Err(FormatError::FormatterInvocationError(_))
    ));
}
