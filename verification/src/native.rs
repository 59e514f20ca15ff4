use vstd::prelude::*;
use vstd::string::StringExecFns;
use crate::align::{align_applicable, align_comments, align_result, CommentNode};
use crate::dispatch::Invocation;
use crate::driver::{clone_bytes, FormatPorts};
use crate::plugin::{FormatError, FormatOpts, PluginApi};
use crate::regions::InjectedRegion;
use crate::trim_newlines::TrimNewlines;

verus! {

/// Formats a Clojure buffer by aligning its `;;` comments: parses the
/// source, collects the comment nodes with their siblings, and applies the
/// alignment edits. On success the result is exactly the alignment of the
/// source against the comment records the parse yields.
pub fn align_comments_format(source: Vec<u8>) -> (r: Result<Vec<u8>, FormatError>)
    ensures
        match crate::ts::clojure_comments_of(source@) {
            Option::Some(recs) => {
                &&& align_applicable(source@, recs) ==> (r matches Ok(out) && out@
                    == align_result(source@, recs))
                &&& !align_applicable(source@, recs) ==> r is Err
            },
            Option::None => (r matches Err(e) && e is GrammarParseError),
        },
{
    let records: Vec<CommentNode> = match crate::ts::clojure_comments(&source) {
        Option::Some(v) => v,
        Option::None => {
            return Err(
                FormatError::GrammarParseError(String::from_str("parse returned no tree")),
            );
        },
    };
    align_comments(source, &records)
}

/// The comment-alignment formatter as an in-process plugin.
pub struct AlignComments;

impl PluginApi for AlignComments {
    fn format(source: Vec<u8>, _opts: FormatOpts) -> Result<Vec<u8>, FormatError> {
        align_comments_format(source)
    }
}

/// The built-in runtime: runs the in-process formatters by name and
/// extracts injections with the compiled-in Clojure grammar. Other grammars
/// and external commands need a runner of their own.
pub struct NativePorts;

impl FormatPorts for NativePorts {
    fn run_formatter(
        &self,
        name: &String,
        _inv: &Invocation,
        opts: &FormatOpts,
        source: &Vec<u8>,
    ) -> Result<Vec<u8>, FormatError> {
        let trim_name = String::from_str("trim-newlines");
        let align_name = String::from_str("align-comments");
        let call_opts = FormatOpts {
            printwidth: opts.printwidth,
            language: opts.language.clone(),
        };
        if *name == trim_name {
            TrimNewlines::format(clone_bytes(source), call_opts)
        } else if *name == align_name {
            AlignComments::format(clone_bytes(source), call_opts)
        } else {
            Err(FormatError::FormatterInvocationError(name.clone()))
        }
    }

    fn extract_injections(
        &self,
        language: &String,
        injections_query: &String,
        source: &Vec<u8>,
    ) -> Result<Vec<InjectedRegion>, FormatError> {
        let clojure = String::from_str("clojure");
        if *language == clojure {
            crate::ts::extract_clojure_injections(source, injections_query)
        } else {
            Err(FormatError::GrammarParseError(language.clone()))
        }
    }
}

} // verus!
