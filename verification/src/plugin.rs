use vstd::prelude::*;

verus! {

/// Errors surfaced by the format driver and the in-process formatters.
#[derive(Debug)]
pub enum FormatError {
    /// The parser returned no tree for the declared language.
    GrammarParseError(String),
    /// The injections (or comment) query failed to compile or execute.
    InjectionQueryError(String),
    /// A formatter could not be run, exited non-zero, or wrote to standard
    /// error when that is configured to be fatal.
    FormatterInvocationError(String),
    /// The injection extractor produced overlapping regions that the
    /// outermost-wins policy could not reconcile.
    OverlapError,
    /// The recursion budget of the driver was exhausted.
    RecursionLimitError,
    /// A failure inside one injected region, carrying the region's language
    /// and byte range around the underlying cause: each nesting level of the
    /// driver adds one link to the chain.
    RegionError { language: String, start_byte: usize, end_byte: usize, cause: Box<FormatError> },
}

/// Options handed to a formatter: the target text column and the language
/// key used to look up grammars and formatters.
#[derive(Debug)]
pub struct FormatOpts {
    pub printwidth: u32,
    pub language: String,
}

/// The interface an in-process formatter implements.
pub trait PluginApi {
    fn format(source: Vec<u8>, opts: FormatOpts) -> Result<Vec<u8>, FormatError>;
}

} // verus!
