use vstd::prelude::*;
use crate::align::{CommentNode, SiblingInfo};
use crate::plugin::FormatError;
use crate::regions::{ByteRange, InjectedRegion, InjectionOpts};

verus! {

#[verifier::external_type_specification]
#[verifier::external_body]
pub struct ExTree(tree_sitter::Tree);

#[verifier::external_type_specification]
#[verifier::external_body]
pub struct ExQuery(tree_sitter::Query);

#[verifier::external_type_specification]
#[verifier::external_body]
pub struct ExNode<'a>(tree_sitter::Node<'a>);

/// A raw injection match before normalization: content byte range, guest
/// language tag, and the raw escape-characters property value.
#[derive(Debug)]
pub struct RawInjection {
    pub start_byte: usize,
    pub end_byte: usize,
    pub lang: String,
    pub escape_chars_raw: String,
}

/// Relies on tree_sitter::Node accessors: copies a node's byte range and
/// start position into plain values.
#[verifier::external_body]
fn sibling_record(node: &tree_sitter::Node) -> (r: SiblingInfo) {
    SiblingInfo {
        start_byte: node.start_byte(),
        end_byte: node.end_byte(),
        start_row: node.start_position().row,
        start_col: node.start_position().column,
    }
}

/// Relies on tree_sitter::Node accessors: copies a comment node's byte
/// range, start position, and nearest named siblings into plain values.
#[verifier::external_body]
fn comment_record(node: &tree_sitter::Node) -> (r: CommentNode) {
    CommentNode {
        start_byte: node.start_byte(),
        end_byte: node.end_byte(),
        start_row: node.start_position().row,
        start_col: node.start_position().column,
        prev: match node.prev_named_sibling() {
            Some(s) => Some(sibling_record(&s)),
            None => None,
        },
        next: match node.next_named_sibling() {
            Some(s) => Some(sibling_record(&s)),
            None => None,
        },
    }
}

/// The comment records that parsing `s` as Clojure and running the comment
/// query yields, with each node's position and nearest named siblings; None
/// when the parse or the query fails. Parsing and the fixed query depend on
/// the source bytes alone, so the outcome is a function of them.
pub uninterp spec fn clojure_comments_of(s: Seq<u8>) -> Option<Seq<CommentNode>>;

/// Relies on tree_sitter::Parser::parse and tree_sitter::QueryCursor::matches
/// with the Clojure grammar and the query `(comment) @comment`: yields one
/// record per captured comment node, in match order. Both are deterministic
/// in the source bytes, so the result carries the name `clojure_comments_of`.
#[verifier::external_body]
pub(crate) fn clojure_comments(source: &Vec<u8>) -> (r: Option<Vec<CommentNode>>)
    ensures
        match clojure_comments_of(source@) {
            Option::Some(recs) => r matches Some(v) && v@ == recs,
            Option::None => r is None,
        },
{
    let mut parser = tree_sitter::Parser::new();
    let language: tree_sitter::Language = tree_sitter_clojure::LANGUAGE.into();
    parser.set_language(&language).ok()?;
    let tree = parser.parse(source.as_slice(), None)?;
    let query = tree_sitter::Query::new(&language, "(comment) @comment").ok()?;
    let mut cursor = tree_sitter::QueryCursor::new();
    let mut matches = cursor.matches(&query, tree.root_node(), source.as_slice());
    let mut out: Vec<CommentNode> = Vec::new();
    while let Some(m) = tree_sitter::StreamingIterator::next(&mut matches) {
        for c in m.captures {
            out.push(comment_record(&c.node));
        }
    }
    Some(out)
}

/// Relies on tree_sitter::Query::new with the Clojure grammar: compiles a
/// query, or reports why it did not compile.
#[verifier::external_body]
fn compile_clojure_query(query_src: &String) -> (r: Result<tree_sitter::Query, FormatError>) {
    let language: tree_sitter::Language = tree_sitter_clojure::LANGUAGE.into();
    tree_sitter::Query::new(&language, query_src.as_str()).map_err(|e| {
        FormatError::InjectionQueryError(e.to_string())
    })
}

/// Relies on tree_sitter::Query::property_settings: the value of the `#set!`
/// property `key` of one query pattern, or the empty string.
#[verifier::external_body]
fn pattern_property(query: &tree_sitter::Query, pattern: usize, key: &str) -> (r: String) {
    query.property_settings(pattern).iter().find(|p| p.key.as_ref() == key).and_then(|p|
        p.value.as_ref()).map(|v| v.to_string()).unwrap_or_default()
}

/// Relies on tree_sitter::QueryCursor::matches: yields one record per
/// `injection.content` capture of the compiled injections query, in match
/// order, with the pattern's language and escape-characters properties.
#[verifier::external_body]
fn run_injection_query(
    tree: &tree_sitter::Tree,
    source: &Vec<u8>,
    query: &tree_sitter::Query,
) -> (r: Vec<RawInjection>) {
    let mut cursor = tree_sitter::QueryCursor::new();
    let mut matches = cursor.matches(query, tree.root_node(), source.as_slice());
    let mut out: Vec<RawInjection> = Vec::new();
    while let Some(m) = tree_sitter::StreamingIterator::next(&mut matches) {
        let lang = pattern_property(query, m.pattern_index, "injection.language");
        let esc = pattern_property(query, m.pattern_index, "injection.escape-characters");
        for c in m.captures.iter().filter(|c| query.capture_names()[c.index as usize]
            == "injection.content") {
            out.push(RawInjection { start_byte: c.node.start_byte(), end_byte: c.node.end_byte(),
                lang: lang.clone(), escape_chars_raw: esc.clone() });
        }
    }
    out
}

/// Model of one raw injection match: byte range, language tag, and the raw
/// escape-characters property value.
pub open spec fn raw_injection_model(r: RawInjection) -> (int, int, Seq<char>, Seq<char>) {
    (r.start_byte as int, r.end_byte as int, r.lang@, r.escape_chars_raw@)
}

/// Model of a list of raw injection matches.
pub open spec fn raw_injections_view(rs: Seq<RawInjection>) -> Seq<(int, int, Seq<char>, Seq<char>)> {
    rs.map_values(|r: RawInjection| raw_injection_model(r))
}

/// The injection matches that parsing `s` as Clojure and running the
/// injections query `q` yields, in match order; None when the parse or the
/// query compilation fails. Parsing and query execution depend on the
/// source bytes and the query text alone, so the outcome is a function of
/// them.
pub uninterp spec fn clojure_injections_of(s: Seq<u8>, q: Seq<char>) -> Option<
    Seq<(int, int, Seq<char>, Seq<char>)>,
>;

/// Relies on tree_sitter::Parser::parse, tree_sitter::Query::new and
/// tree_sitter::QueryCursor::matches with the Clojure grammar: the raw
/// matches of a caller-supplied injections query. All three are
/// deterministic in the source bytes and query text, so the result carries
/// the name `clojure_injections_of`.
#[verifier::external_body]
fn clojure_injections(source: &Vec<u8>, query_src: &String) -> (r: Result<
    Vec<RawInjection>,
    FormatError,
>)
    ensures
        match clojure_injections_of(source@, query_src@) {
            Option::Some(recs) => r matches Ok(v) && raw_injections_view(v@) == recs,
            Option::None => r is Err,
        },
{
    let mut parser = tree_sitter::Parser::new();
    let language: tree_sitter::Language = tree_sitter_clojure::LANGUAGE.into();
    if parser.set_language(&language).is_err() {
        return Err(FormatError::GrammarParseError("language version mismatch".to_string()));
    }
    let tree = match parser.parse(source.as_slice(), None) {
        Some(t) => t,
        None => return Err(FormatError::GrammarParseError("parse returned no tree".to_string())),
    };
    let query = compile_clojure_query(query_src)?;
    Ok(run_injection_query(&tree, source, &query))
}

/// Width of the UTF-8 encoding led by byte `b`; 1 for a byte that leads no
/// multi-byte encoding.
pub open spec fn utf8_width(b: u8) -> int {
    if b < 128 {
        1
    } else if 192 <= b && b <= 223 {
        2
    } else if 224 <= b && b <= 239 {
        3
    } else if 240 <= b && b <= 247 {
        4
    } else {
        1
    }
}

/// The byte sequence split at UTF-8 character boundaries: each element is
/// one character's encoding (clamped at the end of the sequence).
pub open spec fn utf8_split(s: Seq<u8>) -> Seq<Seq<u8>>
    decreases s.len(),
{
    if s.len() == 0 {
        Seq::empty()
    } else {
        let w = if utf8_width(s[0]) <= s.len() {
            utf8_width(s[0])
        } else {
            s.len() as int
        };
        seq![s.take(w)] + utf8_split(s.skip(w))
    }
}

/// The tokens with later duplicates dropped: the set the host's escape
/// convention describes, kept in first-occurrence order.
pub open spec fn dedup_tokens(s: Seq<Seq<u8>>) -> Seq<Seq<u8>>
    decreases s.len(),
{
    if s.len() == 0 {
        s
    } else {
        let prefix = dedup_tokens(s.drop_last());
        if s.drop_last().contains(s.last()) {
            prefix
        } else {
            prefix.push(s.last())
        }
    }
}

proof fn lemma_dedup_contains(s: Seq<Seq<u8>>, x: Seq<u8>)
    ensures
        dedup_tokens(s).contains(x) == s.contains(x),
    decreases s.len(),
{
    if s.len() > 0 {
        let dl = s.drop_last();
        lemma_dedup_contains(dl, x);
        assert(s.contains(x) == (dl.contains(x) || x == s.last())) by {
            if s.contains(x) {
                let k = choose|k: int| 0 <= k < s.len() && s[k] == x;
                if k < dl.len() {
                    assert(dl[k] == x);
                }
            }
            if dl.contains(x) {
                let k = choose|k: int| 0 <= k < dl.len() && dl[k] == x;
                assert(s[k] == x);
            }
            if x == s.last() {
                assert(s[s.len() - 1] == x);
            }
        }
        if !dl.contains(s.last()) {
            let p = dedup_tokens(dl);
            assert(p.push(s.last()).contains(x) == (p.contains(x) || x == s.last())) by {
                if p.push(s.last()).contains(x) {
                    let k = choose|k: int| 0 <= k < p.push(s.last()).len() && p.push(s.last())[k]
                        == x;
                    if k < p.len() {
                        assert(p[k] == x);
                    }
                }
                if p.contains(x) {
                    let k = choose|k: int| 0 <= k < p.len() && p[k] == x;
                    assert(p.push(s.last())[k] == x);
                }
                if x == s.last() {
                    assert(p.push(s.last())[p.len() as int] == x);
                }
            }
        }
    }
}

#[verifier::loop_isolation(false)]
fn bytes_eq(a: &Vec<u8>, b: &Vec<u8>) -> (r: bool)
    ensures
        r == (a@ == b@),
{
    if a.len() != b.len() {
        return false;
    }
    let mut i: usize = 0;
    while i < a.len()
        invariant
            i <= a@.len(),
            a@.len() == b@.len(),
            forall|k: int| 0 <= k < i ==> a@[k] == b@[k],
        decreases a@.len() - i,
    {
        if a[i] != b[i] {
            return false;
        }
        i += 1;
    }
    proof {
        assert(a@ =~= b@);
    }
    true
}

/// Splits the raw escape-characters property value into one token per
/// UTF-8 character.
#[verifier::loop_isolation(false)]
fn split_escape_tokens(raw: &String) -> (r: Vec<Vec<u8>>)
    ensures
        r.deep_view() == utf8_split(crate::dispatch::str_bytes(raw@)),
{
    let bytes = vstd::string::StrSliceExecFns::as_bytes_vec(raw.as_str());
    let ghost bv = bytes@;
    let mut out: Vec<Vec<u8>> = Vec::new();
    let mut i: usize = 0;
    proof {
        assert(bv.skip(0) =~= bv);
        assert(out.deep_view() =~= Seq::<Seq<u8>>::empty());
    }
    while i < bytes.len()
        invariant
            i <= bv.len(),
            bytes@ == bv,
            utf8_split(bv) == out.deep_view() + utf8_split(bv.skip(i as int)),
        decreases bv.len() - i,
    {
        let ghost u = bv.skip(i as int);
        let b = bytes[i];
        assert(u[0] == b);
        let width: usize = if b < 128 {
            1
        } else if 192 <= b && b <= 223 {
            2
        } else if 224 <= b && b <= 239 {
            3
        } else if 240 <= b && b <= 247 {
            4
        } else {
            1
        };
        let w = if width <= bytes.len() - i {
            width
        } else {
            bytes.len() - i
        };
        proof {
            assert(w as int == if utf8_width(u[0]) <= u.len() {
                utf8_width(u[0])
            } else {
                u.len() as int
            });
        }
        let mut tok: Vec<u8> = Vec::new();
        let mut k: usize = 0;
        while k < w
            invariant
                k <= w,
                i + w <= bv.len(),
                tok@ == bv.subrange(i as int, i + k),
            decreases w - k,
        {
            tok.push(bytes[i + k]);
            proof {
                assert(bv.subrange(i as int, i + k + 1) =~= bv.subrange(i as int, i + k).push(
                    bv[i + k],
                ));
            }
            k += 1;
        }
        let ghost ov = out.deep_view();
        let ghost tv = tok@;
        out.push(tok);
        proof {
            assert(u.take(w as int) =~= bv.subrange(i as int, i + w));
            assert(out.deep_view() =~= ov.push(tv)) by {
                assert(forall|m: int|
                    0 <= m < out@.len() ==> out.deep_view()[m] == (#[trigger] out@[m])@);
            }
            assert(ov.push(tv) =~= ov + seq![u.take(w as int)]);
            assert(u.skip(w as int) =~= bv.skip(i + w));
            assert(utf8_split(u) == seq![u.take(w as int)] + utf8_split(u.skip(w as int)));
        }
        i += w;
    }
    proof {
        assert(bv.skip(bv.len() as int) =~= Seq::<u8>::empty());
        assert(utf8_split(Seq::<u8>::empty()) =~= Seq::<Seq<u8>>::empty());
    }
    out
}

/// Drops duplicated escape tokens, keeping first occurrences: the property
/// value names a set.
#[verifier::loop_isolation(false)]
#[verifier::rlimit(30)]
fn dedup_escape_tokens(tokens: Vec<Vec<u8>>) -> (r: Vec<Vec<u8>>)
    ensures
        r.deep_view() == dedup_tokens(tokens.deep_view()),
{
    let ghost tv = tokens.deep_view();
    let mut work = tokens;
    let mut out: Vec<Vec<u8>> = Vec::new();
    proof {
        assert(tv.skip(0) =~= tv);
        assert(tv.take(0) =~= Seq::<Seq<u8>>::empty());
        assert(out.deep_view() =~= Seq::<Seq<u8>>::empty());
        assert(work.deep_view() =~= tv);
    }
    while work.len() > 0
        invariant
            work@.len() <= tv.len(),
            work.deep_view() == tv.skip(tv.len() - work@.len()),
            out.deep_view() == dedup_tokens(tv.take(tv.len() - work@.len())),
        decreases work@.len(),
    {
        let ghost oldwork = work.deep_view();
        let ghost oldvecs = work@;
        let ghost done = tv.take(tv.len() - oldwork.len());
        let e = work.remove(0);
        proof {
            assert(oldwork == tv.skip(done.len() as int));
            assert(oldwork[0] == oldvecs[0]@);
            assert(e@ == tv[done.len() as int]);
            assert(work.deep_view() =~= tv.skip(done.len() + 1 as int)) by {
                assert(work@ == oldvecs.remove(0));
                assert(forall|m: int| 0 <= m < work@.len() ==> work@[m] == oldvecs[m + 1]);
                assert(forall|m: int|
                    0 <= m < work@.len() ==> work.deep_view()[m] == (#[trigger] work@[m])@);
                assert(forall|m: int|
                    0 <= m < oldwork.len() ==> oldwork[m] == (#[trigger] oldvecs[m])@);
            }
        }
        let mut found = false;
        let mut j: usize = 0;
        while j < out.len()
            invariant
                j <= out@.len(),
                found == (exists|m: int| 0 <= m < j && out.deep_view()[m] == e@),
            decreases out@.len() - j,
        {
            let eq = bytes_eq(&out[j], &e);
            proof {
                assert(out.deep_view()[j as int] == out@[j as int]@);
            }
            if eq {
                found = true;
                proof {
                    assert(out.deep_view()[j as int] == e@);
                }
            } else {
                proof {
                    assert(out.deep_view()[j as int] != e@);
                }
            }
            j += 1;
        }
        proof {
            assert(found == out.deep_view().contains(e@));
            lemma_dedup_contains(done, e@);
            let done2 = tv.take(done.len() + 1 as int);
            assert(done2 =~= done.push(e@));
            assert(done2.drop_last() =~= done);
            assert(done2.last() == e@);
        }
        if !found {
            let ghost ov = out.deep_view();
            let ghost ev = e@;
            out.push(e);
            proof {
                assert(out.deep_view() =~= ov.push(ev)) by {
                    assert(forall|m: int|
                        0 <= m < out@.len() ==> out.deep_view()[m] == (#[trigger] out@[m])@);
                }
            }
        }
    }
    proof {
        assert(tv.take(tv.len() as int) =~= tv);
    }
    out
}

/// Turns raw injection matches into region records: each UTF-8 character of
/// the escape-characters property becomes one escape token, duplicates
/// dropped.
#[verifier::loop_isolation(false)]
pub fn raw_to_regions(raw: Vec<RawInjection>) -> (r: Vec<InjectedRegion>)
    ensures
        r@.len() == raw@.len(),
        forall|i: int|
            0 <= i < raw@.len() ==> {
                &&& (#[trigger] r@[i]).range.start_byte == raw@[i].start_byte
                &&& r@[i].range.end_byte == raw@[i].end_byte
                &&& r@[i].lang@ == raw@[i].lang@
                &&& r@[i].opts.escape_chars.deep_view() == dedup_tokens(utf8_split(
                    crate::dispatch::str_bytes(raw@[i].escape_chars_raw@),
                ))
            },
{
    let ghost rm = raw@;
    let mut work = raw;
    let mut out: Vec<InjectedRegion> = Vec::new();
    while work.len() > 0
        invariant
            work@.len() <= rm.len(),
            work@ == rm.skip(rm.len() - work@.len()),
            out@.len() == rm.len() - work@.len(),
            forall|i: int|
                0 <= i < out@.len() ==> {
                    &&& (#[trigger] out@[i]).range.start_byte == rm[i].start_byte
                    &&& out@[i].range.end_byte == rm[i].end_byte
                    &&& out@[i].lang@ == rm[i].lang@
                    &&& out@[i].opts.escape_chars.deep_view() == dedup_tokens(utf8_split(
                        crate::dispatch::str_bytes(rm[i].escape_chars_raw@),
                    ))
                },
        decreases work@.len(),
    {
        let ghost oldwork = work@;
        let e = work.remove(0);
        proof {
            assert(e == rm[rm.len() - oldwork.len()]);
            assert(work@ =~= rm.skip(rm.len() - work@.len())) by {
                assert(work@ == oldwork.remove(0));
                assert(forall|i: int| 0 <= i < work@.len() ==> work@[i] == oldwork[i + 1]);
            }
        }
        let escape_chars = dedup_escape_tokens(split_escape_tokens(&e.escape_chars_raw));
        out.push(
            InjectedRegion {
                range: ByteRange { start_byte: e.start_byte, end_byte: e.end_byte },
                lang: e.lang,
                opts: InjectionOpts { escape_chars },
            },
        );
        proof {
            assert(out@.last().range.start_byte == e.start_byte);
        }
    }
    proof {
        assert(rm.skip(0) =~= rm);
    }
    out
}

/// Extracts the injected regions of a Clojure buffer with a caller-supplied
/// injections query: on success the regions are exactly the raw matches the
/// parse yields, with each escape-characters property split into its
/// character tokens, duplicates dropped.
pub fn extract_clojure_injections(source: &Vec<u8>, injections_query: &String) -> (r: Result<
    Vec<InjectedRegion>,
    FormatError,
>)
    ensures
        match clojure_injections_of(source@, injections_query@) {
            Option::Some(recs) => r matches Ok(v) && v@.len() == recs.len() && forall|i: int|
                0 <= i < recs.len() ==> {
                    &&& (#[trigger] v@[i]).range.start_byte as int == recs[i].0
                    &&& v@[i].range.end_byte as int == recs[i].1
                    &&& v@[i].lang@ == recs[i].2
                    &&& v@[i].opts.escape_chars.deep_view() == dedup_tokens(utf8_split(
                        crate::dispatch::str_bytes(recs[i].3),
                    ))
                },
            Option::None => r is Err,
        },
{
    let raw = match clojure_injections(source, injections_query) {
        Ok(v) => v,
        Err(e) => {
            return Err(e);
        },
    };
    let ghost rv = raw_injections_view(raw@);
    proof {
        assert(forall|i: int|
            0 <= i < raw@.len() ==> rv[i] == raw_injection_model(#[trigger] raw@[i]));
    }
    Ok(raw_to_regions(raw))
}

} // verus!
