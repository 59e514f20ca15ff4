use vstd::prelude::*;
use crate::config::{
    find_chain, find_formatter, find_grammar, grammar_keys, key_lookup, GrammarEntry,
    LanguageChain, NamedFormatter,
};
use crate::dispatch::{adjusted_print_width, build_invocation, Invocation};
use crate::edits::{
    apply_edits, edit_model, edits_disjoint, edits_in_range, edits_view, Edit,
};
use crate::escape::{escape_text, sort_escape_chars, unescape_text};
use crate::plugin::{FormatError, FormatOpts};
use crate::regions::{
    lemma_normalized_props, normalize_regions, normalized_spec, regions_view, InjectedRegion,
};
use crate::textops::{
    col_spec, column_for_byte, ends_one_nl, lemma_offset_strip_roundtrip, lemma_offset_tail,
    lemma_strip_zero_identity, lemma_trim_tail, min_indent_spec, min_leading_indent,
    no_trailing_nl, offset_lines, reindent_ok, strip_leading_indent, strip_spec,
    trim_trailing_whitespace, trim_spec, NL,
};

verus! {

/// The read-only registries a format call works against.
pub struct FormatContext<'a> {
    pub grammars: &'a Vec<GrammarEntry>,
    pub languages: &'a Vec<LanguageChain>,
    pub formatters: &'a Vec<NamedFormatter>,
}

/// The outside work a format call hands off: running a formatter and
/// extracting raw injection matches. Implementations decide how (an
/// in-process formatter, a subprocess, a loaded grammar); the driver states
/// nothing about their results and validates what comes back.
pub trait FormatPorts {
    /// Runs the formatter `name` with the templated invocation on `source`.
    fn run_formatter(
        &self,
        name: &String,
        inv: &Invocation,
        opts: &FormatOpts,
        source: &Vec<u8>,
    ) -> Result<Vec<u8>, FormatError>;

    /// Extracts the raw injected regions of `language` from `source`, using
    /// the given injections query.
    fn extract_injections(
        &self,
        language: &String,
        injections_query: &String,
        source: &Vec<u8>,
    ) -> Result<Vec<InjectedRegion>, FormatError>;
}

/// The recursion budget of the driver: each nested injection level consumes
/// one unit, and a deeper nest than this aborts the call.
pub const MAX_FORMAT_DEPTH: u32 = 64;

/// A language the registry has a grammar for.
pub open spec fn known_language(gs: Seq<GrammarEntry>, lang: Seq<char>) -> bool {
    key_lookup(grammar_keys(gs), lang) is Some
}

/// The indent a region is dedented by: its byte column, or, when it begins
/// at column zero, its content's own minimum leading indent.
pub open spec fn effective_indent(buffer: Seq<u8>, start: int, slice: Seq<u8>) -> int {
    if col_spec(buffer, start) > 0 {
        col_spec(buffer, start)
    } else {
        min_indent_spec(slice)
    }
}

/// An injected region that the transform pipeline hands back verbatim: its
/// language has no grammar (so the sub-format returns its input), it has no
/// escape tokens, its slice survives the dedent/re-indent round trip at the
/// discovered indent, and the dedented slice carries no trailing whitespace
/// beyond what the trim step keeps.
pub open spec fn region_round_trip_ok(
    gs: Seq<GrammarEntry>,
    buffer: Seq<u8>,
    start: int,
    end: int,
    lang: Seq<char>,
    escapes: Seq<Seq<u8>>,
) -> bool {
    let slice = buffer.subrange(start, end);
    let ind = effective_indent(buffer, start, slice);
    &&& !known_language(gs, lang)
    &&& escapes.len() == 0
    &&& ind >= 0
    &&& reindent_ok(slice, ind as nat)
    &&& trim_spec(strip_spec(slice, ind as nat), slice.len() > 0 && slice.last() == NL)
        == strip_spec(slice, ind as nat)
}

#[verifier::loop_isolation(false)]
pub(crate) fn clone_bytes(v: &Vec<u8>) -> (r: Vec<u8>)
    ensures
        r@ == v@,
{
    let mut r: Vec<u8> = Vec::new();
    let mut i: usize = 0;
    while i < v.len()
        invariant
            i <= v@.len(),
            r@ == v@.take(i as int),
        decreases v@.len() - i,
    {
        r.push(v[i]);
        proof {
            assert(v@.take(i + 1 as int) =~= v@.take(i as int).push(v@[i as int]));
        }
        i += 1;
    }
    proof {
        assert(v@.take(v@.len() as int) =~= v@);
    }
    r
}

#[verifier::loop_isolation(false)]
fn subvec(v: &Vec<u8>, a: usize, b: usize) -> (r: Vec<u8>)
    requires
        a <= b <= v@.len(),
    ensures
        r@ == v@.subrange(a as int, b as int),
{
    let mut r: Vec<u8> = Vec::new();
    let mut i: usize = a;
    while i < b
        invariant
            a <= i <= b,
            r@ == v@.subrange(a as int, i as int),
        decreases b - i,
    {
        r.push(v[i]);
        proof {
            assert(v@.subrange(a as int, i + 1 as int) =~= v@.subrange(a as int, i as int).push(
                v@[i as int],
            ));
        }
        i += 1;
    }
    r
}

#[verifier::loop_isolation(false)]
fn copy_byte_seqs(v: &Vec<Vec<u8>>) -> (r: Vec<Vec<u8>>)
    ensures
        r.deep_view() == v.deep_view(),
{
    let mut r: Vec<Vec<u8>> = Vec::new();
    let mut i: usize = 0;
    proof {
        assert(r.deep_view() =~= v.deep_view().take(0));
    }
    while i < v.len()
        invariant
            i <= v@.len(),
            r.deep_view() == v.deep_view().take(i as int),
        decreases v@.len() - i,
    {
        let inner = clone_bytes(&v[i]);
        r.push(inner);
        proof {
            assert(r.deep_view() =~= v.deep_view().take(i + 1 as int)) by {
                assert(forall|k: int|
                    0 <= k < r@.len() ==> r.deep_view()[k] == (#[trigger] r@[k])@);
                assert(v.deep_view()[i as int] == v@[i as int]@);
                assert(v.deep_view().take(i + 1 as int) =~= v.deep_view().take(i as int).push(
                    v.deep_view()[i as int],
                ));
            }
        }
        i += 1;
    }
    proof {
        assert(v.deep_view().take(v@.len() as int) =~= v.deep_view());
    }
    r
}

fn ends_with_nl(v: &Vec<u8>) -> (r: bool)
    ensures
        r == (v@.len() > 0 && v@.last() == NL),
{
    v.len() > 0 && v[v.len() - 1] == NL
}

/// One region's transform pipeline: extract the slice, unescape, discover
/// the indent (the region's column, or the content's own minimum indent
/// when the region starts at column zero), dedent, sub-format with the
/// width reduced by the indent, re-escape, trim trailing whitespace
/// (keeping one newline when the slice ended with one), and re-indent.
///
/// Whatever the sub-format returned, the result never gains a newline tail:
/// it ends with exactly one line feed or none when the slice ended with a
/// line feed, and with none otherwise.
#[verifier::loop_isolation(false)]
pub fn transform_region<P: FormatPorts>(
    ports: &P,
    context: &FormatContext,
    buffer: &Vec<u8>,
    region: &InjectedRegion,
    printwidth: u32,
    depth: u32,
) -> (r: Result<Vec<u8>, FormatError>)
    requires
        depth >= 1,
        region.range.start_byte <= region.range.end_byte <= buffer@.len(),
    ensures
        r matches Ok(out) ==> {
            let slice = buffer@.subrange(
                region.range.start_byte as int,
                region.range.end_byte as int,
            );
            &&& (slice.len() > 0 && slice.last() == NL) ==> (ends_one_nl(out@) || no_trailing_nl(
                out@,
            ))
            &&& !(slice.len() > 0 && slice.last() == NL) ==> no_trailing_nl(out@)
        },
        !known_language(context.grammars@, region.lang@) ==> r is Ok,
        region_round_trip_ok(
            context.grammars@,
            buffer@,
            region.range.start_byte as int,
            region.range.end_byte as int,
            region.lang@,
            region.opts.escape_chars.deep_view(),
        ) ==> (r matches Ok(out) && out@ == buffer@.subrange(
            region.range.start_byte as int,
            region.range.end_byte as int,
        )),
    decreases depth, 0int,
{
    let ghost sl = buffer@.subrange(
        region.range.start_byte as int,
        region.range.end_byte as int,
    );
    let ghost rt_ok = region_round_trip_ok(
        context.grammars@,
        buffer@,
        region.range.start_byte as int,
        region.range.end_byte as int,
        region.lang@,
        region.opts.escape_chars.deep_view(),
    );
    proof {
        crate::escape::lemma_sort_esc_len(region.opts.escape_chars.deep_view());
    }
    let start = region.range.start_byte;
    let end = region.range.end_byte;
    let slice = subvec(buffer, start, end);
    let escape_chars = copy_byte_seqs(&region.opts.escape_chars);
    let sorted_escapes = sort_escape_chars(escape_chars);
    let unescaped = if sorted_escapes.len() == 0 {
        clone_bytes(&slice)
    } else {
        unescape_text(&slice, &sorted_escapes)
    };
    let ghost un0 = unescaped@;
    let mut indent = column_for_byte(buffer, start);
    let mut normalized = unescaped;
    if indent > 0 {
        normalized = strip_leading_indent(&normalized, indent);
    } else {
        let min_indent = min_leading_indent(&normalized);
        if min_indent > 0 {
            normalized = strip_leading_indent(&normalized, min_indent);
            indent = min_indent;
        } else {
            proof {
                lemma_strip_zero_identity(un0);
            }
        }
    }
    proof {
        assert(normalized@ == strip_spec(un0, indent as nat));
        if rt_ok {
            assert(un0 == sl);
            assert(indent as int == effective_indent(buffer@, start as int, sl));
        }
    }
    let width = adjusted_print_width(printwidth, indent);
    let child_opts = FormatOpts { printwidth: width, language: region.lang.clone() };
    let sub = match format_recursive(ports, &normalized, &child_opts, false, context, depth - 1) {
        Ok(s) => s,
        Err(e) => {
            return Err(e);
        },
    };
    let escaped = if sorted_escapes.len() == 0 {
        sub
    } else {
        escape_text(&sub, &sorted_escapes)
    };
    let has_trailing_newline = ends_with_nl(&slice);
    let mut result = escaped;
    let ghost before_trim = result@;
    trim_trailing_whitespace(&mut result, has_trailing_newline);
    let ghost after_trim = result@;
    offset_lines(&mut result, indent);
    proof {
        lemma_trim_tail(before_trim, has_trailing_newline);
        lemma_offset_tail(after_trim, indent as nat);
        if rt_ok {
            assert(before_trim == strip_spec(sl, indent as nat));
            assert(has_trailing_newline == (sl.len() > 0 && sl.last() == NL));
            assert(after_trim == strip_spec(sl, indent as nat));
            lemma_offset_strip_roundtrip(sl, indent as nat);
            assert(result@ == sl);
        }
    }
    Ok(result)
}

/// The recursive injection-aware format driver. Looks up the grammar of
/// `opts.language` (an unknown language returns the source unchanged and is
/// not an error), runs the language's first configured formatter over the
/// buffer unless `skip_root` is set, extracts and normalizes the injected
/// regions of the result, transforms each region, and splices the
/// transformed regions back in descending start order.
#[verifier::loop_isolation(false)]
pub fn format_recursive<P: FormatPorts>(
    ports: &P,
    source: &Vec<u8>,
    opts: &FormatOpts,
    skip_root: bool,
    context: &FormatContext,
    depth: u32,
) -> (r: Result<Vec<u8>, FormatError>)
    ensures
        !known_language(context.grammars@, opts.language@) ==> (r matches Ok(out) && out@
            == source@),
        known_language(context.grammars@, opts.language@) && depth == 0 ==> (r matches Err(e)
            && e is RecursionLimitError),
    decreases depth, 1int,
{
    let grammar = match find_grammar(context.grammars, &opts.language) {
        Option::Some(g) => g,
        Option::None => {
            return Ok(clone_bytes(source));
        },
    };
    if depth == 0 {
        return Err(FormatError::RecursionLimitError);
    }
    let mut buffer = clone_bytes(source);
    if !skip_root {
        if let Option::Some(chain) = find_chain(context.languages, &opts.language) {
            if chain.formatters.len() > 0 {
                if let Option::Some(named) = find_formatter(
                    context.formatters,
                    &chain.formatters[0],
                ) {
                    let inv = build_invocation(&named.spec, opts.printwidth, &opts.language);
                    buffer = match ports.run_formatter(&named.name, &inv, opts, &buffer) {
                        Ok(b) => b,
                        Err(e) => {
                            return Err(e);
                        },
                    };
                }
            }
        }
    }
    let raw = match ports.extract_injections(&opts.language, &grammar.injections_query, &buffer) {
        Ok(v) => v,
        Err(e) => {
            return Err(e);
        },
    };
    let ghost raw_m = regions_view(raw@);
    let regions = match normalize_regions(raw, buffer.len()) {
        Ok(v) => v,
        Err(e) => {
            return Err(e);
        },
    };
    let ghost rm = regions_view(regions@);
    proof {
        lemma_normalized_props(raw_m, buffer@.len() as int);
        assert(normalized_spec(raw_m, buffer@.len() as int) == Option::Some(rm));
        assert(crate::regions::regions_in_range(rm, buffer@.len() as int));
        assert(crate::regions::regions_disjoint(rm));
    }
    let mut edits: Vec<Edit> = Vec::new();
    let mut i: usize = 0;
    while i < regions.len()
        invariant
            i <= regions@.len(),
            regions_view(regions@) == rm,
            edits@.len() == i,
            forall|k: int|
                0 <= k < i ==> (#[trigger] edits_view(edits@)[k]).0 == rm[k].0 && edits_view(
                    edits@,
                )[k].1 == rm[k].1,
        decreases regions@.len() - i,
    {
        proof {
            assert(rm[i as int] == crate::regions::region_model(regions@[i as int]));
            assert(crate::regions::keep_region(rm[i as int], buffer@.len() as int));
        }
        let formatted = match transform_region(ports, context, &buffer, &regions[i], opts
            .printwidth, depth) {
            Ok(f) => f,
            Err(e) => {
                // spec: the failure bubbles up carrying the region's
                // language and byte range
                return Err(FormatError::RegionError {
                    language: regions[i].lang.clone(),
                    start_byte: regions[i].range.start_byte,
                    end_byte: regions[i].range.end_byte,
                    cause: Box::new(e),
                });
            },
        };
        let e = Edit {
            start_byte: regions[i].range.start_byte,
            end_byte: regions[i].range.end_byte,
            replacement: formatted,
        };
        let ghost old_edits = edits@;
        edits.push(e);
        proof {
            assert(forall|k: int|
                0 <= k < edits@.len() ==> edits_view(edits@)[k] == edit_model(
                    #[trigger] edits@[k],
                ));
            assert(forall|k: int|
                0 <= k < old_edits.len() ==> edits_view(old_edits)[k] == edit_model(
                    #[trigger] old_edits[k],
                ));
            assert(forall|k: int| 0 <= k < old_edits.len() ==> edits@[k] == old_edits[k]);
            assert(edits@[i as int] == e);
            assert(edits_view(edits@)[i as int] == edit_model(e));
            assert(edit_model(e).0 == rm[i as int].0 && edit_model(e).1 == rm[i as int].1);
        }
        i += 1;
    }
    proof {
        let ev = edits_view(edits@);
        assert forall|k: int| 0 <= k < ev.len() implies 0 <= (#[trigger] ev[k]).0 <= ev[k].1
            <= buffer@.len() as int by {
            assert(crate::regions::keep_region(rm[k], buffer@.len() as int));
        }
        assert forall|k: int, j: int| 0 <= k < j < ev.len() implies (#[trigger] ev[k]).1 <= (
        #[trigger] ev[j]).0 || ev[j].1 <= ev[k].0 by {
            assert(rm[k].1 <= rm[j].0 || rm[j].1 <= rm[k].0);
        }
        assert(edits_in_range(ev, buffer@.len() as int));
        assert(edits_disjoint(ev));
    }
    let result = apply_edits(buffer, edits);
    Ok(result)
}

/// The top-level entry of the driver: formats `source` as `opts.language`
/// with a fresh recursion budget. With `skip_root` set the root formatter is
/// skipped and only the injected regions are formatted.
pub fn format<P: FormatPorts>(
    ports: &P,
    source: &Vec<u8>,
    opts: &FormatOpts,
    skip_root: bool,
    context: &FormatContext,
) -> (r: Result<Vec<u8>, FormatError>)
    ensures
        !known_language(context.grammars@, opts.language@) ==> (r matches Ok(out) && out@
            == source@),
{
    format_recursive(ports, source, opts, skip_root, context, MAX_FORMAT_DEPTH)
}

} // verus!
