use vstd::prelude::*;

verus! {

/// Line feed byte.
pub const NL: u8 = 10;

/// Carriage return byte.
pub const CR: u8 = 13;

/// ASCII space byte.
pub const SP: u8 = 32;

/// `n` space bytes.
pub open spec fn spaces(n: nat) -> Seq<u8> {
    Seq::new(n, |i: int| SP)
}

/// Number of leading ASCII space bytes at the front of a byte sequence.
pub open spec fn leading_spaces(t: Seq<u8>) -> nat
    decreases t.len(),
{
    if t.len() > 0 && t[0] == SP {
        1 + leading_spaces(t.skip(1))
    } else {
        0
    }
}

/// Index of the first line feed in `t`, or `t.len()` if there is none.
pub open spec fn find_nl(t: Seq<u8>) -> int
    decreases t.len(),
{
    if t.len() == 0 {
        0
    } else if t[0] == NL {
        0
    } else {
        1 + find_nl(t.skip(1))
    }
}

/// `t` with `n` spaces inserted after every line feed whose next byte exists
/// and is neither a line feed nor a carriage return.
pub open spec fn offset_spec(t: Seq<u8>, n: nat) -> Seq<u8>
    decreases t.len(),
{
    if t.len() == 0 {
        t
    } else if t[0] == NL && t.len() >= 2 && t[1] != NL && t[1] != CR {
        seq![NL] + spaces(n) + offset_spec(t.skip(1), n)
    } else {
        seq![t[0]] + offset_spec(t.skip(1), n)
    }
}

/// Number of trailing line feed and carriage return bytes.
pub open spec fn trailing_nl_count(t: Seq<u8>) -> nat
    decreases t.len(),
{
    if t.len() > 0 && (t.last() == NL || t.last() == CR) {
        1 + trailing_nl_count(t.drop_last())
    } else {
        0
    }
}

/// `t` with trailing line feeds and carriage returns removed; if any were
/// removed and `preserve` holds, a single line feed is put back.
pub open spec fn trim_spec(t: Seq<u8>, preserve: bool) -> Seq<u8> {
    let core = t.take(t.len() - trailing_nl_count(t));
    if preserve && trailing_nl_count(t) > 0 {
        core + seq![NL]
    } else {
        core
    }
}

/// Start of the line containing position `pos`: the index just after the
/// closest line feed before `pos`, or 0.
pub open spec fn line_start_of(s: Seq<u8>, pos: int) -> int
    decreases pos,
{
    if pos <= 0 {
        0
    } else if s[pos - 1] == NL {
        pos
    } else {
        line_start_of(s, pos - 1)
    }
}

/// Byte column of index `idx` in `s`, with `idx` clamped to `s.len()`.
pub open spec fn col_spec(s: Seq<u8>, idx: int) -> int {
    let target = if idx <= s.len() {
        idx
    } else {
        s.len() as int
    };
    target - line_start_of(s, target)
}

/// ASCII whitespace.
pub open spec fn is_ws(b: u8) -> bool {
    b == 9 || b == NL || b == 12 || b == CR || b == SP
}

/// A line consisting only of whitespace (or empty).
pub open spec fn is_blank(l: Seq<u8>) -> bool {
    forall|i: int| 0 <= i < l.len() ==> is_ws(#[trigger] l[i])
}

/// Combination of two optional indent minima.
pub open spec fn combine_mi(a: Option<int>, b: Option<int>) -> Option<int> {
    match a {
        Option::None => b,
        Option::Some(x) => match b {
            Option::None => Option::Some(x),
            Option::Some(y) => Option::Some(if x <= y {
                x
            } else {
                y
            }),
        },
    }
}

/// Minimum leading-space count over the non-blank lines of `t`, if any.
pub open spec fn mi_spec(t: Seq<u8>) -> Option<int>
    decreases t.len(),
    via mi_spec_dec
{
    if t.len() == 0 {
        Option::None
    } else {
        let e = find_nl(t);
        let line = t.take(e);
        let rest = if e < t.len() {
            mi_spec(t.skip(e + 1))
        } else {
            Option::<int>::None
        };
        if is_blank(line) {
            rest
        } else {
            combine_mi(Option::Some(leading_spaces(line) as int), rest)
        }
    }
}

#[via_fn]
proof fn mi_spec_dec(t: Seq<u8>) {
    lemma_find_nl_char(t);
}

/// Minimum leading indent: 0 when every line is blank.
pub open spec fn min_indent_spec(t: Seq<u8>) -> int {
    match mi_spec(t) {
        Option::None => 0,
        Option::Some(m) => m,
    }
}

/// Copy bytes up to and including the next line feed, then continue stripping
/// at the following line.
pub open spec fn copy_line(t: Seq<u8>, n: nat) -> Seq<u8>
    decreases t.len(), 0nat,
{
    if t.len() == 0 {
        t
    } else if t[0] == NL {
        seq![NL] + strip_spec(t.skip(1), n)
    } else {
        seq![t[0]] + copy_line(t.skip(1), n)
    }
}

/// `t` with up to `n` leading spaces removed from every line.
pub open spec fn strip_spec(t: Seq<u8>, n: nat) -> Seq<u8>
    decreases t.len(), 1nat,
    via strip_spec_dec
{
    let k = if n <= leading_spaces(t) {
        n
    } else {
        leading_spaces(t)
    };
    copy_line(t.skip(k as int), n)
}

#[via_fn]
proof fn strip_spec_dec(t: Seq<u8>, n: nat) {
    lemma_leading_char(t);
}

proof fn lemma_leading_char(u: Seq<u8>)
    ensures
        leading_spaces(u) <= u.len(),
        leading_spaces(u) < u.len() ==> u[leading_spaces(u) as int] != SP,
        forall|k: int| 0 <= k < leading_spaces(u) ==> u[k] == SP,
    decreases u.len(),
{
    if u.len() > 0 && u[0] == SP {
        lemma_leading_char(u.skip(1));
        assert forall|k: int| 0 <= k < leading_spaces(u) implies u[k] == SP by {
            if k > 0 {
                assert(u.skip(1)[k - 1] == u[k]);
            }
        }
        if leading_spaces(u) < u.len() {
            assert(u.skip(1)[leading_spaces(u) - 1] == u[leading_spaces(u) as int]);
        }
    }
}

proof fn lemma_find_nl_char(u: Seq<u8>)
    ensures
        0 <= find_nl(u) <= u.len(),
        find_nl(u) < u.len() ==> u[find_nl(u)] == NL,
        forall|k: int| 0 <= k < find_nl(u) ==> u[k] != NL,
    decreases u.len(),
{
    if u.len() > 0 && u[0] != NL {
        lemma_find_nl_char(u.skip(1));
        assert forall|k: int| 0 <= k < find_nl(u) implies u[k] != NL by {
            if k > 0 {
                assert(u.skip(1)[k - 1] == u[k]);
            }
        }
        if find_nl(u) < u.len() {
            assert(u.skip(1)[find_nl(u) - 1] == u[find_nl(u)]);
        }
    }
}

proof fn lemma_leading_is(u: Seq<u8>, m: int)
    requires
        0 <= m <= u.len(),
        forall|k: int| 0 <= k < m ==> u[k] == SP,
        m < u.len() ==> u[m] != SP,
    ensures
        leading_spaces(u) == m,
{
    lemma_leading_char(u);
    if leading_spaces(u) < m {
        assert(u[leading_spaces(u) as int] == SP);
    }
    if leading_spaces(u) > m {
        assert(u[m] == SP);
    }
}

proof fn lemma_find_nl_is(u: Seq<u8>, m: int)
    requires
        0 <= m <= u.len(),
        forall|k: int| 0 <= k < m ==> u[k] != NL,
        m < u.len() ==> u[m] == NL,
    ensures
        find_nl(u) == m,
{
    lemma_find_nl_char(u);
    if find_nl(u) < m {
        assert(u[find_nl(u)] != NL);
    }
    if find_nl(u) > m {
        assert(u[m] != NL);
    }
}

/// Re-indenting lines 2..N of `data` by `offset` spaces: inserts `offset`
/// spaces after each line feed that is followed by a byte other than a line
/// feed or carriage return.
#[verifier::loop_isolation(false)]
pub fn offset_lines(data: &mut Vec<u8>, offset: usize)
    ensures
        final (data)@ == offset_spec(old(data)@, offset as nat),
{
    let ghost t = old(data)@;
    let mut res: Vec<u8> = Vec::new();
    let mut i: usize = 0;
    proof {
        assert(t.skip(0) =~= t);
    }
    while i < data.len()
        invariant
            i <= t.len(),
            data@ == t,
            offset_spec(t, offset as nat) == res@ + offset_spec(t.skip(i as int), offset as nat),
        decreases t.len() - i,
    {
        let ghost u = t.skip(i as int);
        let ghost res0 = res@;
        let b = data[i];
        res.push(b);
        assert(u[0] == b);
        if b == NL && i + 1 < data.len() && data[i + 1] != NL && data[i + 1] != CR {
            let mut k: usize = 0;
            while k < offset
                invariant
                    k <= offset,
                    res@ == res0 + seq![NL] + spaces(k as nat),
                decreases offset - k,
            {
                res.push(SP);
                proof {
                    assert(res@ =~= res0 + seq![NL] + spaces((k + 1) as nat));
                }
                k += 1;
            }
            proof {
                assert(u.len() >= 2 && u[1] == t[i + 1]);
                assert(offset_spec(u, offset as nat) == seq![NL] + spaces(offset as nat)
                    + offset_spec(u.skip(1), offset as nat));
                assert(u.skip(1) =~= t.skip(i + 1));
                assert(res@ + offset_spec(t.skip(i + 1), offset as nat) =~= res0 + offset_spec(
                    u,
                    offset as nat,
                ));
            }
        } else {
            proof {
                if u.len() >= 2 {
                    assert(u[1] == t[i + 1]);
                }
                assert(offset_spec(u, offset as nat) == seq![u[0]] + offset_spec(
                    u.skip(1),
                    offset as nat,
                ));
                assert(u.skip(1) =~= t.skip(i + 1));
                assert(res@ + offset_spec(t.skip(i + 1), offset as nat) =~= res0 + offset_spec(
                    u,
                    offset as nat,
                ));
            }
        }
        i += 1;
    }
    proof {
        assert(t.skip(t.len() as int) =~= Seq::<u8>::empty());
        assert(offset_spec(t, offset as nat) =~= res@);
    }
    *data = res;
}

/// Pops trailing line feeds and carriage returns; if any were removed and
/// `preserve_newline` holds, a single line feed is put back.
#[verifier::loop_isolation(false)]
pub fn trim_trailing_whitespace(data: &mut Vec<u8>, preserve_newline: bool)
    ensures
        final (data)@ == trim_spec(old(data)@, preserve_newline),
{
    let ghost t = old(data)@;
    let orig_len = data.len();
    proof {
        assert(t.take(t.len() as int) =~= t);
    }
    while data.len() > 0 && (data[data.len() - 1] == NL || data[data.len() - 1] == CR)
        invariant
            data@.len() <= t.len(),
            data@ == t.take(data@.len() as int),
            trailing_nl_count(t) == (t.len() - data@.len()) + trailing_nl_count(data@),
        decreases data@.len(),
    {
        let ghost before = data@;
        data.pop();
        proof {
            assert(before.last() == NL || before.last() == CR);
            assert(trailing_nl_count(before) == 1 + trailing_nl_count(before.drop_last()));
            assert(data@ =~= before.drop_last());
            assert(data@ =~= t.take(data@.len() as int));
        }
    }
    proof {
        assert(trailing_nl_count(data@) == 0);
        assert(data@.len() == t.len() - trailing_nl_count(t));
    }
    let removed = data.len() < orig_len;
    proof {
        assert(removed == (trailing_nl_count(t) > 0));
    }
    if preserve_newline && removed {
        data.push(NL);
        proof {
            assert(data@ =~= trim_spec(t, preserve_newline));
        }
    }
}

/// Byte column of `byte_index` in `source`: the number of bytes since the
/// last line feed (or buffer start), with the index clamped to the length.
#[verifier::loop_isolation(false)]
pub fn column_for_byte(source: &Vec<u8>, byte_index: usize) -> (r: usize)
    ensures
        r as int == col_spec(source@, byte_index as int),
{
    let s_len = source.len();
    let target = if byte_index < s_len {
        byte_index
    } else {
        s_len
    };
    let mut p = target;
    while p > 0 && source[p - 1] != NL
        invariant
            p <= target,
            line_start_of(source@, target as int) == line_start_of(source@, p as int),
        decreases p,
    {
        p -= 1;
    }
    proof {
        assert(line_start_of(source@, p as int) == p as int);
    }
    target - p
}

/// Spec view of an optional indent minimum held in exec code.
pub open spec fn opt_view(o: Option<usize>) -> Option<int> {
    match o {
        Option::None => Option::None,
        Option::Some(a) => Option::Some(a as int),
    }
}

/// The minimum count of leading ASCII space bytes over all non-blank lines;
/// 0 when every line is blank.
#[verifier::loop_isolation(false)]
#[verifier::rlimit(30)]
pub fn min_leading_indent(text: &Vec<u8>) -> (r: usize)
    ensures
        r as int == min_indent_spec(text@),
{
    let ghost t = text@;
    let mut acc: Option<usize> = Option::None;
    let mut i: usize = 0;
    proof {
        assert(t.skip(0) =~= t);
    }
    while i < text.len()
        invariant
            i <= t.len(),
            combine_mi(opt_view(acc), mi_spec(t.skip(i as int))) == mi_spec(t),
        decreases t.len() - i,
    {
        let ghost u = t.skip(i as int);
        let ghost acc0 = opt_view(acc);
        let mut j: usize = i;
        while j < text.len() && text[j] == SP
            invariant
                i <= j <= t.len(),
                forall|m: int| i <= m < j ==> t[m] == SP,
            decreases t.len() - j,
        {
            j += 1;
        }
        let lead = j - i;
        let ghost j1 = j as int;
        let mut blank = true;
        while j < text.len() && text[j] != NL
            invariant
                j1 <= j <= t.len(),
                forall|m: int| j1 <= m < j ==> t[m] != NL,
                blank == (forall|m: int| j1 <= m < j ==> is_ws(#[trigger] t[m])),
            decreases t.len() - j,
        {
            let b = text[j];
            if !(b == 9 || b == 12 || b == CR || b == SP) {
                blank = false;
            }
            j += 1;
        }
        let ghost e = j - i as int;
        proof {
            assert forall|k: int| 0 <= k < e implies u[k] != NL by {
                assert(u[k] == t[i + k]);
                if i + k < j1 {
                    assert(t[i + k] == SP);
                }
            }
            if e < u.len() {
                assert(u[e] == t[j as int]);
            }
            lemma_find_nl_is(u, e);
            let line = u.take(e);
            assert forall|k: int| 0 <= k < lead implies line[k] == SP by {
                assert(line[k] == t[i + k]);
            }
            if (lead as int) < e {
                assert(line[lead as int] == t[j1]);
                assert(t[j1] != SP);
            }
            lemma_leading_is(line, lead as int);
            assert(is_blank(line) == blank) by {
                if blank {
                    assert forall|k: int| 0 <= k < line.len() implies is_ws(
                        #[trigger] line[k],
                    ) by {
                        assert(line[k] == t[i + k]);
                        if i + k < j1 {
                            assert(t[i + k] == SP);
                        }
                    }
                } else {
                    let m = choose|m: int| j1 <= m < j && !is_ws(#[trigger] t[m]);
                    assert(line[m - i] == t[m]);
                }
            }
        }
        if !blank {
            acc = match acc {
                Option::None => Option::Some(lead),
                Option::Some(a) => Option::Some(
                    if a <= lead {
                        a
                    } else {
                        lead
                    },
                ),
            };
        }
        let ghost line_min: Option<int> = if blank {
            Option::None
        } else {
            Option::Some(lead as int)
        };
        proof {
            assert(opt_view(acc) == combine_mi(acc0, line_min));
        }
        if j < text.len() {
            i = j + 1;
            proof {
                assert(mi_spec(u) == combine_mi(line_min, mi_spec(t.skip(i as int)))) by {
                    assert(u.skip(e + 1) =~= t.skip(i as int));
                }
            }
        } else {
            i = j;
            proof {
                assert(t.skip(i as int) =~= Seq::<u8>::empty());
                assert(mi_spec(u) == combine_mi(line_min, mi_spec(t.skip(i as int))));
            }
        }
        proof {
            assert(combine_mi(combine_mi(acc0, line_min), mi_spec(t.skip(i as int)))
                == combine_mi(acc0, combine_mi(line_min, mi_spec(t.skip(i as int)))));
        }
    }
    proof {
        assert(t.skip(t.len() as int) =~= Seq::<u8>::empty());
    }
    match acc {
        Option::None => 0,
        Option::Some(a) => a,
    }
}

/// Removes up to `indent` leading space bytes from every line of `text`;
/// lines with fewer leading spaces lose only what they have, and newline
/// terminators are preserved.
#[verifier::loop_isolation(false)]
pub fn strip_leading_indent(text: &Vec<u8>, indent: usize) -> (r: Vec<u8>)
    ensures
        r@ == strip_spec(text@, indent as nat),
{
    let ghost t = text@;
    let ghost n = indent as nat;
    let mut res: Vec<u8> = Vec::new();
    let mut i: usize = 0;
    proof {
        assert(t.skip(0) =~= t);
    }
    while i < text.len()
        invariant
            i <= t.len(),
            strip_spec(t, n) == res@ + strip_spec(t.skip(i as int), n),
        decreases t.len() - i,
    {
        let ghost u = t.skip(i as int);
        let mut j: usize = i;
        while j < text.len() && j - i < indent && text[j] == SP
            invariant
                i <= j <= t.len(),
                j - i <= indent,
                forall|m: int| i <= m < j ==> t[m] == SP,
            decreases t.len() - j,
        {
            j += 1;
        }
        proof {
            lemma_leading_char(u);
            assert forall|k: int| 0 <= k < j - i implies u[k] == SP by {
                assert(u[k] == t[i + k]);
            }
            let skipped = j - i as int;
            if j - i == indent {
                // the full indent was scanned, so the line has at least that
                // many leading spaces
                if leading_spaces(u) < skipped {
                    assert(u[leading_spaces(u) as int] == SP);
                }
                assert(skipped == if n <= leading_spaces(u) {
                    n as int
                } else {
                    leading_spaces(u) as int
                });
            } else {
                assert(j == t.len() || u[skipped] != SP);
                lemma_leading_is(u, skipped);
            }
            assert(strip_spec(u, n) == copy_line(u.skip(skipped), n));
            assert(u.skip(skipped) =~= t.skip(j as int));
        }
        while j < text.len() && text[j] != NL
            invariant
                i <= j <= t.len(),
                strip_spec(t, n) == res@ + copy_line(t.skip(j as int), n),
            decreases t.len() - j,
        {
            let b = text[j];
            res.push(b);
            proof {
                let w = t.skip(j as int);
                assert(w[0] == b);
                assert(copy_line(w, n) == seq![b] + copy_line(w.skip(1), n));
                assert(w.skip(1) =~= t.skip(j + 1));
            }
            j += 1;
        }
        if j < text.len() {
            res.push(NL);
            proof {
                let w = t.skip(j as int);
                assert(w[0] == NL);
                assert(copy_line(w, n) == seq![NL] + strip_spec(w.skip(1), n));
                assert(w.skip(1) =~= t.skip(j + 1));
            }
            i = j + 1;
        } else {
            proof {
                assert(t.skip(j as int) =~= Seq::<u8>::empty());
                assert(t.skip(j as int).skip(0) =~= Seq::<u8>::empty());
            }
            i = j;
        }
    }
    proof {
        assert(t.skip(t.len() as int) =~= Seq::<u8>::empty());
        assert(t.skip(t.len() as int).skip(0) =~= Seq::<u8>::empty());
    }
    res
}

proof fn lemma_leading_concat_spaces(n: nat, v: Seq<u8>)
    ensures
        leading_spaces(spaces(n) + v) == n + leading_spaces(v),
    decreases n,
{
    if n == 0 {
        assert(spaces(0) + v =~= v);
    } else {
        lemma_leading_concat_spaces((n - 1) as nat, v);
        let w = spaces(n) + v;
        assert(w[0] == SP);
        assert(w.skip(1) =~= spaces((n - 1) as nat) + v);
    }
}

proof fn lemma_offset_leading(t: Seq<u8>, n: nat)
    ensures
        leading_spaces(offset_spec(t, n)) == leading_spaces(t),
    decreases t.len(),
{
    if t.len() == 0 {
    } else if t[0] == NL && t.len() >= 2 && t[1] != NL && t[1] != CR {
        let w = seq![NL] + spaces(n) + offset_spec(t.skip(1), n);
        assert(w[0] == NL);
        assert(leading_spaces(w) == 0);
    } else {
        lemma_offset_leading(t.skip(1), n);
        let w = seq![t[0]] + offset_spec(t.skip(1), n);
        assert(w[0] == t[0]);
        if t[0] == SP {
            assert(w.skip(1) =~= offset_spec(t.skip(1), n));
            assert(leading_spaces(w) == 1 + leading_spaces(offset_spec(t.skip(1), n)));
        } else {
            assert(leading_spaces(w) == 0);
        }
    }
}

proof fn lemma_copy_offset(t: Seq<u8>, n: nat)
    ensures
        copy_line(offset_spec(t, n), n) == t,
    decreases t.len(),
{
    if t.len() == 0 {
        assert(copy_line(offset_spec(t, n), n) =~= t);
    } else if t[0] == NL && t.len() >= 2 && t[1] != NL && t[1] != CR {
        let rest = t.skip(1);
        lemma_copy_offset(rest, n);
        lemma_offset_leading(rest, n);
        lemma_leading_concat_spaces(n, offset_spec(rest, n));
        let w = spaces(n) + offset_spec(rest, n);
        let out = seq![NL] + w;
        assert(offset_spec(t, n) =~= out);
        assert(out[0] == NL);
        assert(copy_line(out, n) == seq![NL] + strip_spec(out.skip(1), n));
        assert(out.skip(1) =~= w);
        assert(leading_spaces(w) == n + leading_spaces(rest));
        assert(strip_spec(w, n) == copy_line(w.skip(n as int), n));
        assert(w.skip(n as int) =~= offset_spec(rest, n));
        assert(copy_line(offset_spec(t, n), n) =~= t);
    } else if t[0] == NL {
        // no insertion: the next byte is absent, a line feed or a carriage
        // return, so the following line keeps zero leading spaces
        let rest = t.skip(1);
        lemma_copy_offset(rest, n);
        lemma_offset_leading(rest, n);
        let out = seq![NL] + offset_spec(rest, n);
        assert(offset_spec(t, n) =~= out);
        assert(copy_line(out, n) == seq![NL] + strip_spec(out.skip(1), n));
        assert(out.skip(1) =~= offset_spec(rest, n));
        assert(leading_spaces(rest) == 0) by {
            if rest.len() > 0 {
                assert(rest[0] == t[1]);
            }
        }
        assert(strip_spec(offset_spec(rest, n), n) == copy_line(
            offset_spec(rest, n).skip(0),
            n,
        ));
        assert(offset_spec(rest, n).skip(0) =~= offset_spec(rest, n));
        assert(copy_line(offset_spec(t, n), n) =~= t);
    } else {
        let rest = t.skip(1);
        lemma_copy_offset(rest, n);
        let out = seq![t[0]] + offset_spec(rest, n);
        assert(offset_spec(t, n) =~= out);
        assert(out[0] == t[0] && t[0] != NL);
        assert(copy_line(out, n) == seq![t[0]] + copy_line(out.skip(1), n));
        assert(out.skip(1) =~= offset_spec(rest, n));
        assert(copy_line(offset_spec(t, n), n) =~= t);
    }
}

/// Round trip of re-indent then dedent: stripping `n` leading spaces after
/// inserting `n` gives back the original text, provided the first line does
/// not itself start with a space (inserted spaces only ever follow a line
/// feed, so a spacey first line would lose its own spaces to the strip).
pub proof fn lemma_strip_offset_roundtrip(t: Seq<u8>, n: nat)
    requires
        t.len() > 0 ==> (t[0] != SP || n == 0),
    ensures
        strip_spec(offset_spec(t, n), n) == t,
{
    lemma_copy_offset(t, n);
    lemma_offset_leading(t, n);
    if t.len() == 0 {
        assert(strip_spec(offset_spec(t, n), n) =~= t);
    } else {
        assert(leading_spaces(t) == 0 || n == 0);
        assert(strip_spec(offset_spec(t, n), n) == copy_line(offset_spec(t, n).skip(0), n));
        assert(offset_spec(t, n).skip(0) =~= offset_spec(t, n));
    }
}

/// The line start never lies beyond the position itself.
pub proof fn lemma_line_start_bounds(s: Seq<u8>, pos: int)
    ensures
        0 <= line_start_of(s, pos),
        pos >= 0 ==> line_start_of(s, pos) <= pos,
    decreases pos,
{
    if pos > 0 && s[pos - 1] != NL {
        lemma_line_start_bounds(s, pos - 1);
    }
}

/// A line survives dedenting by `n` and re-indenting: it is empty, starts
/// with a carriage return (the re-indent step inserts nothing before one),
/// or carries at least `n` leading spaces with something after them that is
/// not a carriage return.
pub open spec fn line_ok(l: Seq<u8>, n: nat) -> bool {
    ||| l.len() == 0
    ||| l[0] == CR
    ||| (leading_spaces(l) >= n && l.len() > n && (leading_spaces(l) == n ==> l[n as int] != CR))
}

/// Every line of `t` satisfies `line_ok`.
pub open spec fn lines_ok(t: Seq<u8>, n: nat) -> bool
    decreases t.len(),
    via lines_ok_dec
{
    if t.len() == 0 {
        true
    } else {
        let e = find_nl(t);
        line_ok(t.take(e), n) && (e < t.len() ==> lines_ok(t.skip(e + 1), n))
    }
}

#[via_fn]
proof fn lines_ok_dec(t: Seq<u8>, n: nat) {
    lemma_find_nl_char(t);
}

/// Every line of `t` after the current one satisfies `line_ok`.
pub open spec fn tail_lines_ok(t: Seq<u8>, n: nat) -> bool {
    find_nl(t) < t.len() ==> lines_ok(t.skip(find_nl(t) + 1), n)
}

/// `t` survives dedenting by `n` and re-indenting: its first line has no
/// leading spaces to lose, and every later line can carry the indent.
pub open spec fn reindent_ok(t: Seq<u8>, n: nat) -> bool {
    &&& t.len() > 0 ==> (leading_spaces(t) == 0 || n == 0)
    &&& tail_lines_ok(t, n)
}

proof fn lemma_leading_of_line(u: Seq<u8>)
    ensures
        leading_spaces(u.take(find_nl(u))) == leading_spaces(u),
{
    lemma_leading_char(u);
    lemma_find_nl_char(u);
    let e = find_nl(u);
    let l = u.take(e);
    assert(leading_spaces(u) <= e) by {
        if leading_spaces(u) > e {
            assert(e < u.len());
            assert(u[e] == SP);
            assert(u[e] == NL);
        }
    }
    assert forall|k: int| 0 <= k < leading_spaces(u) implies l[k] == SP by {
        assert(l[k] == u[k]);
    }
    if leading_spaces(u) < l.len() {
        assert(l[leading_spaces(u) as int] == u[leading_spaces(u) as int]);
    }
    lemma_leading_is(l, leading_spaces(u) as int);
}

proof fn lemma_strip_zero(t: Seq<u8>, phase_copy: bool)
    ensures
        phase_copy ==> copy_line(t, 0) == t,
        !phase_copy ==> strip_spec(t, 0) == t,
    decreases t.len(), (if phase_copy {
        0int
    } else {
        1int
    }),
{
    if phase_copy {
        if t.len() == 0 {
            assert(copy_line(t, 0) =~= t);
        } else if t[0] == NL {
            lemma_strip_zero(t.skip(1), false);
            assert(copy_line(t, 0) =~= t);
        } else {
            lemma_strip_zero(t.skip(1), true);
            assert(copy_line(t, 0) =~= t);
        }
    } else {
        assert(strip_spec(t, 0) == copy_line(t.skip(0), 0));
        assert(t.skip(0) =~= t);
        lemma_strip_zero(t, true);
    }
}

/// Stripping zero leading spaces is the identity.
pub proof fn lemma_strip_zero_identity(t: Seq<u8>)
    ensures
        strip_spec(t, 0) == t,
{
    lemma_strip_zero(t, false);
}

proof fn lemma_offset_copy(t: Seq<u8>, n: nat)
    requires
        tail_lines_ok(t, n),
    ensures
        offset_spec(copy_line(t, n), n) == t,
    decreases t.len(),
{
    lemma_find_nl_char(t);
    if t.len() == 0 {
        assert(offset_spec(copy_line(t, n), n) =~= t);
    } else if t[0] != NL {
        let rest = t.skip(1);
        assert(tail_lines_ok(rest, n)) by {
            assert(find_nl(t) == 1 + find_nl(rest));
            if find_nl(rest) < rest.len() {
                assert(rest.skip(find_nl(rest) + 1) =~= t.skip(find_nl(t) + 1));
            }
        }
        lemma_offset_copy(rest, n);
        let x = copy_line(rest, n);
        assert(copy_line(t, n) == seq![t[0]] + x);
        let w = seq![t[0]] + x;
        assert(w[0] == t[0] && t[0] != NL);
        assert(offset_spec(w, n) == seq![t[0]] + offset_spec(w.skip(1), n));
        assert(w.skip(1) =~= x);
        assert(seq![t[0]] + rest =~= t);
    } else {
        let rest = t.skip(1);
        assert(find_nl(t) == 0);
        assert(lines_ok(rest, n));
        let e0 = find_nl(rest);
        let l0 = rest.take(e0);
        lemma_find_nl_char(rest);
        lemma_leading_char(rest);
        lemma_leading_of_line(rest);
        assert(line_ok(l0, n));
        if rest.len() == 0 {
            assert(copy_line(t, n) == seq![NL] + strip_spec(rest, n));
            assert(rest.skip(0) =~= rest);
            assert(strip_spec(rest, n) =~= Seq::<u8>::empty());
            assert(copy_line(t, n) =~= seq![NL]);
            assert(seq![NL].skip(1) =~= Seq::<u8>::empty());
            assert(offset_spec(Seq::<u8>::empty(), n) == Seq::<u8>::empty());
            assert(offset_spec(seq![NL], n) =~= seq![NL]);
            assert(t =~= seq![NL]);
        } else if l0.len() == 0 || l0[0] == CR {
            // an empty line or one led by a carriage return: nothing is
            // stripped and nothing is re-inserted
            assert(leading_spaces(rest) == 0) by {
                if l0.len() == 0 {
                    assert(e0 == 0);
                    assert(rest[0] == NL);
                } else {
                    assert(l0[0] == rest[0]);
                }
            }
            assert(strip_spec(rest, n) == copy_line(rest.skip(0), n));
            assert(rest.skip(0) =~= rest);
            let y = copy_line(rest, n);
            assert(copy_line(t, n) == seq![NL] + y);
            assert(tail_lines_ok(rest, n));
            lemma_offset_copy(rest, n);
            assert(y.len() >= 1 && (y[0] == NL || y[0] == CR)) by {
                if rest[0] == NL {
                    assert(y == seq![NL] + strip_spec(rest.skip(1), n));
                    assert(y[0] == NL);
                } else {
                    assert(y == seq![rest[0]] + copy_line(rest.skip(1), n));
                    assert(y[0] == rest[0]);
                    assert(rest[0] == l0[0]);
                }
            }
            let w = seq![NL] + y;
            assert(w[0] == NL && w.len() >= 2 && (w[1] == NL || w[1] == CR));
            assert(offset_spec(w, n) == seq![NL] + offset_spec(w.skip(1), n));
            assert(w.skip(1) =~= y);
            assert(seq![NL] + rest =~= t);
        } else {
            // a line with at least n leading spaces: the strip takes exactly
            // n of them and the re-indent puts them back
            assert(leading_spaces(l0) >= n && l0.len() > n);
            assert(leading_spaces(rest) >= n);
            assert(n <= leading_spaces(rest));
            assert(strip_spec(rest, n) == copy_line(rest.skip(n as int), n));
            let tailpart = rest.skip(n as int);
            assert(tailpart.len() > 0) by {
                assert(rest.len() >= l0.len());
            }
            assert(tailpart[0] == rest[n as int]);
            assert(rest[n as int] == l0[n as int]);
            assert(l0[n as int] != NL) by {
                assert(l0[n as int] == rest[n as int]);
                assert(n < e0);
            }
            assert(l0[n as int] != CR) by {
                if leading_spaces(l0) > n {
                    assert(l0[n as int] == SP) by {
                        lemma_leading_char(l0);
                    }
                }
            }
            let y = copy_line(tailpart, n);
            assert(y == seq![tailpart[0]] + copy_line(tailpart.skip(1), n));
            assert(y.len() >= 1 && y[0] == l0[n as int]);
            assert(copy_line(t, n) == seq![NL] + y);
            let w = seq![NL] + y;
            assert(w[0] == NL && w.len() >= 2 && w[1] == y[0]);
            assert(w[1] != NL && w[1] != CR);
            assert(offset_spec(w, n) == seq![NL] + spaces(n) + offset_spec(w.skip(1), n));
            assert(w.skip(1) =~= y);
            assert(tail_lines_ok(tailpart, n)) by {
                assert forall|k: int| 0 <= k < e0 - n implies tailpart[k] != NL by {
                    assert(tailpart[k] == rest[n + k]);
                }
                if e0 - n < tailpart.len() {
                    assert(tailpart[e0 - n] == rest[e0]);
                }
                lemma_find_nl_is(tailpart, e0 - n);
                if e0 - n < tailpart.len() {
                    assert(tailpart.skip(e0 - n + 1) =~= rest.skip(e0 + 1));
                    assert(e0 < rest.len());
                }
            }
            lemma_offset_copy(tailpart, n);
            assert(seq![NL] + spaces(n) + tailpart =~= t) by {
                let lhs = seq![NL] + spaces(n) + tailpart;
                assert(lhs.len() == t.len());
                assert forall|k: int| 0 <= k < t.len() implies lhs[k] == t[k] by {
                    if k == 0 {
                    } else if k <= n {
                        assert(rest[k - 1] == SP);
                        assert(t[k] == rest[k - 1]);
                        assert(lhs[k] == SP);
                    } else {
                        assert(tailpart[k - 1 - n] == rest[k - 1]);
                        assert(t[k] == rest[k - 1]);
                        assert(lhs[k] == tailpart[k - 1 - n]);
                    }
                }
            }
        }
    }
}

/// Round trip of dedent then re-indent: inserting `n` spaces after
/// stripping `n` gives back the original text, provided the first line had
/// none to lose and every later line could carry the indent.
pub proof fn lemma_offset_strip_roundtrip(t: Seq<u8>, n: nat)
    requires
        reindent_ok(t, n),
    ensures
        offset_spec(strip_spec(t, n), n) == t,
{
    if t.len() == 0 {
        assert(t.skip(0) =~= t);
        assert(strip_spec(t, n) =~= Seq::<u8>::empty());
        assert(offset_spec(strip_spec(t, n), n) =~= t);
    } else {
        assert(leading_spaces(t) == 0 || n == 0);
        let k: nat = if n <= leading_spaces(t) {
            n
        } else {
            leading_spaces(t)
        };
        assert(k == 0);
        assert(strip_spec(t, n) == copy_line(t.skip(0), n));
        assert(t.skip(0) =~= t);
        lemma_offset_copy(t, n);
    }
}

/// `t` ends with exactly one line feed: the last byte is a line feed and
/// the byte before it, if any, is neither a line feed nor a carriage return.
pub open spec fn ends_one_nl(t: Seq<u8>) -> bool {
    &&& t.len() >= 1
    &&& t.last() == NL
    &&& t.len() >= 2 ==> (t[t.len() - 2] != NL && t[t.len() - 2] != CR)
}

/// `t` has no trailing line feed or carriage return.
pub open spec fn no_trailing_nl(t: Seq<u8>) -> bool {
    t.len() == 0 || (t.last() != NL && t.last() != CR)
}

proof fn lemma_trailing_char(t: Seq<u8>)
    ensures
        trailing_nl_count(t) <= t.len(),
        forall|k: int|
            t.len() - trailing_nl_count(t) <= k < t.len() ==> (t[k] == NL || t[k] == CR),
        t.len() - trailing_nl_count(t) - 1 >= 0 ==> !(t[t.len() - trailing_nl_count(t) - 1] == NL
            || t[t.len() - trailing_nl_count(t) - 1] == CR),
    decreases t.len(),
{
    if t.len() > 0 && (t.last() == NL || t.last() == CR) {
        lemma_trailing_char(t.drop_last());
        assert(forall|k: int| 0 <= k < t.drop_last().len() ==> t.drop_last()[k] == t[k]);
    }
}

/// Where the trim step leaves the tail of the buffer: with newline
/// preservation the result ends in exactly one line feed or in none at all;
/// without it the result never ends in a newline byte.
pub proof fn lemma_trim_tail(t: Seq<u8>, preserve: bool)
    ensures
        preserve ==> (ends_one_nl(trim_spec(t, preserve)) || no_trailing_nl(
            trim_spec(t, preserve),
        )),
        !preserve ==> no_trailing_nl(trim_spec(t, preserve)),
        trailing_nl_count(t) > 0 && preserve ==> ends_one_nl(trim_spec(t, preserve)),
{
    lemma_trailing_char(t);
    let c = trailing_nl_count(t);
    let core = t.take(t.len() - c);
    assert(core.len() == t.len() - c);
    if core.len() > 0 {
        assert(core.last() == t[t.len() - c - 1]);
        assert(!(core.last() == NL || core.last() == CR));
    }
    if preserve && c > 0 {
        let out = core + seq![NL];
        assert(out.last() == NL);
        if out.len() >= 2 {
            assert(out[out.len() - 2] == core.last());
        }
    }
}

proof fn lemma_offset_len(t: Seq<u8>, n: nat)
    ensures
        offset_spec(t, n).len() >= t.len(),
    decreases t.len(),
{
    if t.len() > 0 {
        lemma_offset_len(t.skip(1), n);
    }
}

/// Re-indentation does not touch the end of the buffer: a text that ends in
/// exactly one line feed still does, and one with no trailing newline byte
/// still has none.
pub proof fn lemma_offset_tail(t: Seq<u8>, n: nat)
    ensures
        ends_one_nl(t) ==> ends_one_nl(offset_spec(t, n)),
        no_trailing_nl(t) ==> no_trailing_nl(offset_spec(t, n)),
    decreases t.len(),
{
    if t.len() == 0 {
    } else if t[0] == NL && t.len() >= 2 && t[1] != NL && t[1] != CR {
        let rest = t.skip(1);
        lemma_offset_tail(rest, n);
        lemma_offset_len(rest, n);
        let out = seq![NL] + spaces(n) + offset_spec(rest, n);
        assert(offset_spec(t, n) == out);
        assert(rest.len() >= 1);
        assert(rest.last() == t.last());
        if no_trailing_nl(t) {
            assert(no_trailing_nl(rest));
            assert(offset_spec(rest, n).len() >= 1);
            assert(out.last() == offset_spec(rest, n).last());
        }
        if ends_one_nl(t) {
            // the line after this line feed begins with an ordinary byte, so
            // the rest still ends in exactly one line feed
            assert(rest.len() >= 2) by {
                if rest.len() == 1 {
                    assert(rest[0] == t[1] && rest[0] == t.last());
                }
            }
            assert(rest[rest.len() - 2] == t[t.len() - 2]);
            assert(ends_one_nl(rest));
            let orest = offset_spec(rest, n);
            assert(orest.len() >= 2);
            assert(out.last() == orest.last());
            assert(out[out.len() - 2] == orest[orest.len() - 2]);
        }
    } else {
        let rest = t.skip(1);
        let out = seq![t[0]] + offset_spec(rest, n);
        assert(offset_spec(t, n) == out);
        if rest.len() == 0 {
            assert(out =~= seq![t[0]]);
            assert(out.last() == t.last());
        } else {
            lemma_offset_tail(rest, n);
            lemma_offset_len(rest, n);
            let orest = offset_spec(rest, n);
            assert(rest.last() == t.last());
            if no_trailing_nl(t) {
                assert(no_trailing_nl(rest));
                assert(out.last() == orest.last());
            }
            if ends_one_nl(t) {
                assert(rest.last() == NL);
                if rest.len() >= 2 {
                    assert(rest[rest.len() - 2] == t[t.len() - 2]);
                }
                assert(ends_one_nl(rest));
                assert(orest.len() >= 1);
                assert(out.last() == orest.last());
                if orest.len() >= 2 {
                    assert(out[out.len() - 2] == orest[orest.len() - 2]);
                } else {
                    // a single line feed: the rest was exactly one line feed,
                    // so the byte before it is the first byte of the text
                    assert(orest =~= seq![NL]);
                    assert(rest.len() == 1);
                    assert(t.len() == 2);
                    assert(out[out.len() - 2] == t[0]);
                    assert(t[t.len() - 2] == t[0]);
                }
            }
        }
    }
}

} // verus!
