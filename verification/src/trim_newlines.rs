use vstd::prelude::*;
use crate::plugin::{FormatError, FormatOpts, PluginApi};
use crate::textops::{CR, NL};

verus! {

/// Number of leading line feed and carriage return bytes.
pub open spec fn leading_nl_count(t: Seq<u8>) -> nat
    decreases t.len(),
{
    if t.len() > 0 && (t[0] == NL || t[0] == CR) {
        1 + leading_nl_count(t.skip(1))
    } else {
        0
    }
}

/// Number of trailing line feed and carriage return bytes, counted after the
/// leading ones are gone.
pub open spec fn trailing_after_leading(t: Seq<u8>) -> nat {
    crate::textops::trailing_nl_count(t.skip(leading_nl_count(t) as int))
}

/// `t` with all leading and trailing line feed and carriage return bytes
/// removed.
pub open spec fn trim_surrounding_spec(t: Seq<u8>) -> Seq<u8> {
    let u = t.skip(leading_nl_count(t) as int);
    u.take(u.len() - crate::textops::trailing_nl_count(u))
}

proof fn lemma_leading_nl_char(u: Seq<u8>)
    ensures
        leading_nl_count(u) <= u.len(),
        leading_nl_count(u) < u.len() ==> !(u[leading_nl_count(u) as int] == NL || u[
            leading_nl_count(u) as int] == CR),
        forall|k: int| 0 <= k < leading_nl_count(u) ==> (u[k] == NL || u[k] == CR),
    decreases u.len(),
{
    if u.len() > 0 && (u[0] == NL || u[0] == CR) {
        lemma_leading_nl_char(u.skip(1));
        assert forall|k: int| 0 <= k < leading_nl_count(u) implies (u[k] == NL || u[k]
            == CR) by {
            if k > 0 {
                assert(u.skip(1)[k - 1] == u[k]);
            }
        }
        if leading_nl_count(u) < u.len() {
            assert(u.skip(1)[leading_nl_count(u) - 1] == u[leading_nl_count(u) as int]);
        }
    }
}

proof fn lemma_trailing_nl_is(u: Seq<u8>, m: int)
    requires
        0 <= m <= u.len(),
        forall|k: int| m <= k < u.len() ==> (u[k] == NL || u[k] == CR),
        m > 0 ==> !(u[m - 1] == NL || u[m - 1] == CR),
    ensures
        crate::textops::trailing_nl_count(u) == u.len() - m,
    decreases u.len(),
{
    if u.len() > 0 && (u.last() == NL || u.last() == CR) {
        assert(m < u.len());
        lemma_trailing_nl_is(u.drop_last(), m);
        assert(forall|k: int| 0 <= k < u.drop_last().len() ==> u.drop_last()[k] == u[k]);
    } else {
        if m < u.len() {
            assert(u[u.len() - 1] == NL || u[u.len() - 1] == CR);
        }
    }
}

/// Strips every line feed and carriage return from both ends of the buffer.
#[verifier::loop_isolation(false)]
pub fn trim_surrounding_newlines(source: &Vec<u8>) -> (r: Vec<u8>)
    ensures
        r@ == trim_surrounding_spec(source@),
{
    let ghost t = source@;
    let mut start: usize = 0;
    let mut end: usize = source.len();
    while start < end && (source[start] == NL || source[start] == CR)
        invariant
            start <= end <= t.len(),
            forall|k: int| 0 <= k < start ==> (t[k] == NL || t[k] == CR),
            end == t.len(),
        decreases end - start,
    {
        start += 1;
    }
    proof {
        assert forall|k: int| 0 <= k < start implies t[k] == NL || t[k] == CR by {}
        if start < t.len() {
            assert(!(t[start as int] == NL || t[start as int] == CR));
        }
        lemma_leading_nl_char(t);
        if leading_nl_count(t) < start {
            assert(t[leading_nl_count(t) as int] == NL || t[leading_nl_count(t) as int] == CR);
        }
        if leading_nl_count(t) > start {
            assert(!(t[start as int] == NL || t[start as int] == CR));
        }
        assert(leading_nl_count(t) == start);
    }
    while end > start && (source[end - 1] == NL || source[end - 1] == CR)
        invariant
            start <= end <= t.len(),
            forall|k: int| end <= k < t.len() ==> (t[k] == NL || t[k] == CR),
        decreases end,
    {
        end -= 1;
    }
    let ghost u = t.skip(start as int);
    proof {
        assert forall|k: int| end - start <= k < u.len() implies (u[k] == NL || u[k]
            == CR) by {
            assert(u[k] == t[start + k]);
        }
        if end > start {
            assert(u[end - start - 1] == t[end - 1]);
        }
        lemma_trailing_nl_is(u, end - start);
    }
    let mut r: Vec<u8> = Vec::new();
    let mut i: usize = start;
    while i < end
        invariant
            start <= i <= end,
            r@ == t.subrange(start as int, i as int),
        decreases end - i,
    {
        r.push(source[i]);
        proof {
            assert(t.subrange(start as int, i + 1 as int) =~= t.subrange(
                start as int,
                i as int,
            ).push(t[i as int]));
        }
        i += 1;
    }
    proof {
        assert(u.take(end - start as int) =~= t.subrange(start as int, end as int));
    }
    r
}

/// The trim-newlines formatter: returns its input with surrounding blank
/// lines removed, whatever the options say.
pub struct TrimNewlines;

impl PluginApi for TrimNewlines {
    fn format(source: Vec<u8>, _opts: FormatOpts) -> Result<Vec<u8>, FormatError> {
        Ok(trim_surrounding_newlines(&source))
    }
}

} // verus!
