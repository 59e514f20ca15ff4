use vstd::prelude::*;

verus! {

/// Backslash byte.
pub const BS: u8 = 92;

/// Left-to-right, non-overlapping replacement of `pat` by `rep` in `s`.
/// An empty pattern matches nothing.
pub open spec fn replace_all_spec(s: Seq<u8>, pat: Seq<u8>, rep: Seq<u8>) -> Seq<u8>
    decreases s.len(),
{
    if pat.len() == 0 || s.len() < pat.len() {
        s
    } else if s.take(pat.len() as int) == pat {
        rep + replace_all_spec(s.skip(pat.len() as int), pat, rep)
    } else {
        seq![s[0]] + replace_all_spec(s.skip(1), pat, rep)
    }
}

/// Replacing `\t` by `t` for each token `t` in order.
pub open spec fn unescape_spec(s: Seq<u8>, cs: Seq<Seq<u8>>) -> Seq<u8>
    decreases cs.len(),
{
    if cs.len() == 0 {
        s
    } else {
        unescape_spec(replace_all_spec(s, seq![BS] + cs[0], cs[0]), cs.skip(1))
    }
}

/// Replacing `t` by `\t` for each token `t` in order.
pub open spec fn escape_spec(s: Seq<u8>, cs: Seq<Seq<u8>>) -> Seq<u8>
    decreases cs.len(),
{
    if cs.len() == 0 {
        s
    } else {
        escape_spec(replace_all_spec(s, cs[0], seq![BS] + cs[0]), cs.skip(1))
    }
}

/// Lexicographic byte order.
pub open spec fn lex_le(a: Seq<u8>, b: Seq<u8>) -> bool
    decreases a.len(),
{
    if a.len() == 0 {
        true
    } else if b.len() == 0 {
        false
    } else if a[0] < b[0] {
        true
    } else if a[0] > b[0] {
        false
    } else {
        lex_le(a.skip(1), b.skip(1))
    }
}

/// The order escape tokens are applied in: longer tokens first, ties broken
/// lexicographically.
pub open spec fn esc_le(a: Seq<u8>, b: Seq<u8>) -> bool {
    a.len() > b.len() || (a.len() == b.len() && lex_le(a, b))
}

/// Stable insertion for the escape-token order: `e` goes after every element
/// that orders at or before it.
pub open spec fn insert_esc(s: Seq<Seq<u8>>, e: Seq<u8>) -> Seq<Seq<u8>>
    decreases s.len(),
{
    if s.len() == 0 {
        seq![e]
    } else if esc_le(s.last(), e) {
        s.push(e)
    } else {
        insert_esc(s.drop_last(), e).push(s.last())
    }
}

/// Stable sort of escape tokens: longest first, ties lexicographic.
pub open spec fn sort_esc(s: Seq<Seq<u8>>) -> Seq<Seq<u8>>
    decreases s.len(),
{
    if s.len() == 0 {
        s
    } else {
        insert_esc(sort_esc(s.drop_last()), s.last())
    }
}

proof fn lemma_lex_skip(a: Seq<u8>, b: Seq<u8>, i: int)
    requires
        0 <= i <= a.len(),
        i <= b.len(),
        forall|k: int| 0 <= k < i ==> a[k] == b[k],
    ensures
        lex_le(a, b) == lex_le(a.skip(i), b.skip(i)),
    decreases i,
{
    if i > 0 {
        assert(a.len() > 0 && b.len() > 0);
        assert(a[0] == b[0]);
        assert(lex_le(a, b) == lex_le(a.skip(1), b.skip(1)));
        lemma_lex_skip(a.skip(1), b.skip(1), i - 1);
        assert(forall|k: int| 0 <= k < i - 1 ==> a.skip(1)[k] == a[k + 1]);
        assert(forall|k: int| 0 <= k < i - 1 ==> b.skip(1)[k] == b[k + 1]);
        assert(a.skip(1).skip(i - 1) =~= a.skip(i));
        assert(b.skip(1).skip(i - 1) =~= b.skip(i));
    } else {
        assert(a.skip(0) =~= a);
        assert(b.skip(0) =~= b);
    }
}

#[verifier::loop_isolation(false)]
fn lex_le_exec(a: &Vec<u8>, b: &Vec<u8>) -> (r: bool)
    ensures
        r == lex_le(a@, b@),
{
    let mut i: usize = 0;
    while i < a.len() && i < b.len()
        invariant
            i <= a@.len(),
            i <= b@.len(),
            forall|k: int| 0 <= k < i ==> a@[k] == b@[k],
        decreases a@.len() - i,
    {
        let x = a[i];
        let y = b[i];
        if x < y {
            proof {
                lemma_lex_skip(a@, b@, i as int);
                assert(a@.skip(i as int)[0] == x && b@.skip(i as int)[0] == y);
            }
            return true;
        }
        if x > y {
            proof {
                lemma_lex_skip(a@, b@, i as int);
                assert(a@.skip(i as int)[0] == x && b@.skip(i as int)[0] == y);
            }
            return false;
        }
        i += 1;
    }
    proof {
        lemma_lex_skip(a@, b@, i as int);
        if i == a@.len() {
            assert(a@.skip(i as int).len() == 0);
        } else {
            assert(b@.skip(i as int).len() == 0);
            assert(a@.skip(i as int).len() > 0);
        }
    }
    a.len() <= b.len()
}

proof fn lemma_insert_esc_at(s: Seq<Seq<u8>>, e: Seq<u8>, j: int)
    requires
        0 <= j <= s.len(),
        forall|k: int| j <= k < s.len() ==> !esc_le(#[trigger] s[k], e),
        j > 0 ==> esc_le(s[j - 1], e),
    ensures
        insert_esc(s, e) == s.take(j) + seq![e] + s.skip(j),
    decreases s.len(),
{
    if s.len() == 0 {
        assert(insert_esc(s, e) =~= s.take(j) + seq![e] + s.skip(j));
    } else if esc_le(s.last(), e) {
        assert(j == s.len());
        assert(s.take(j) == s);
        assert(insert_esc(s, e) =~= s.take(j) + seq![e] + s.skip(j));
    } else {
        assert(j < s.len());
        lemma_insert_esc_at(s.drop_last(), e, j);
        assert(s.drop_last().take(j) == s.take(j));
        assert(insert_esc(s, e) =~= s.take(j) + seq![e] + s.skip(j));
    }
}

#[verifier::loop_isolation(false)]
fn insert_esc_exec(sorted: &mut Vec<Vec<u8>>, e: Vec<u8>)
    ensures
        final (sorted).deep_view() == insert_esc(old(sorted).deep_view(), e@),
{
    let ghost s = sorted.deep_view();
    let mut j: usize = sorted.len();
    while j > 0 && !(sorted[j - 1].len() > e.len() || (sorted[j - 1].len() == e.len()
        && lex_le_exec(&sorted[j - 1], &e)))
        invariant
            j <= sorted@.len(),
            sorted.deep_view() == s,
            forall|k: int| j <= k < s.len() ==> !esc_le(#[trigger] s[k], e@),
        decreases j,
    {
        assert(s[j - 1] == sorted@[j - 1]@);
        j -= 1;
    }
    proof {
        if j > 0 {
            assert(s[j - 1] == sorted@[j - 1]@);
        }
        lemma_insert_esc_at(s, e@, j as int);
    }
    sorted.insert(j, e);
    proof {
        assert(sorted.deep_view() =~= s.take(j as int) + seq![e@] + s.skip(j as int)) by {
            assert(forall|k: int|
                0 <= k < sorted@.len() ==> sorted.deep_view()[k] == (#[trigger] sorted@[k])@);
        }
    }
}

/// Orders escape tokens by descending length, ties broken lexicographically:
/// the order both escape and unescape apply the tokens in. Matching longer
/// tokens first keeps the pair a round trip when one token is a prefix of
/// another.
#[verifier::loop_isolation(false)]
pub fn sort_escape_chars(escape_chars: Vec<Vec<u8>>) -> (r: Vec<Vec<u8>>)
    ensures
        r.deep_view() == sort_esc(escape_chars.deep_view()),
{
    let ghost orig = escape_chars.deep_view();
    let mut work = escape_chars;
    let mut sorted: Vec<Vec<u8>> = Vec::new();
    proof {
        assert(orig.skip(0) =~= orig);
        assert(sorted.deep_view() =~= Seq::<Seq<u8>>::empty());
        assert(work.deep_view() =~= orig);
    }
    while work.len() > 0
        invariant
            work@.len() <= orig.len(),
            work.deep_view() == orig.skip(orig.len() - work@.len()),
            sorted.deep_view() == sort_esc(orig.take(orig.len() - work@.len())),
        decreases work@.len(),
    {
        let ghost oldwork = work.deep_view();
        let ghost oldvecs = work@;
        let ghost done = orig.take(orig.len() - oldwork.len());
        let e = work.remove(0);
        proof {
            assert(oldwork == orig.skip(done.len() as int));
            assert(oldwork[0] == oldvecs[0]@);
            assert(e@ == oldwork[0]);
            assert(oldwork[0] == orig[done.len() as int]);
            assert(work.deep_view() =~= orig.skip(done.len() + 1 as int)) by {
                assert(work@ == oldvecs.remove(0));
                assert(forall|i: int| 0 <= i < work@.len() ==> work@[i] == oldvecs[i + 1]);
                assert(forall|i: int|
                    0 <= i < work@.len() ==> work.deep_view()[i] == (#[trigger] work@[i])@);
                assert(forall|i: int|
                    0 <= i < oldwork.len() ==> oldwork[i] == (#[trigger] oldvecs[i])@);
            }
            let done2 = orig.take(done.len() + 1 as int);
            assert(done2 =~= done.push(e@));
            assert(done2.drop_last() =~= done);
            assert(done2.last() == e@);
        }
        insert_esc_exec(&mut sorted, e);
    }
    proof {
        assert(orig.take(orig.len() as int) =~= orig);
    }
    sorted
}

proof fn lemma_insert_esc_len(s: Seq<Seq<u8>>, e: Seq<u8>)
    ensures
        insert_esc(s, e).len() == s.len() + 1,
    decreases s.len(),
{
    if s.len() == 0 {
    } else if esc_le(s.last(), e) {
    } else {
        lemma_insert_esc_len(s.drop_last(), e);
    }
}

/// Sorting the escape tokens neither adds nor drops one.
pub proof fn lemma_sort_esc_len(s: Seq<Seq<u8>>)
    ensures
        sort_esc(s).len() == s.len(),
    decreases s.len(),
{
    if s.len() > 0 {
        lemma_sort_esc_len(s.drop_last());
        lemma_insert_esc_len(sort_esc(s.drop_last()), s.last());
    }
}

#[verifier::loop_isolation(false)]
fn match_at(s: &Vec<u8>, i: usize, pat: &Vec<u8>) -> (r: bool)
    requires
        i + pat@.len() <= s@.len(),
    ensures
        r == (s@.skip(i as int).take(pat@.len() as int) == pat@),
{
    let total = s.len();
    let mut k: usize = 0;
    while k < pat.len()
        invariant
            total == s@.len(),
            k <= pat@.len(),
            forall|m: int| 0 <= m < k ==> s@[i + m] == pat@[m],
        decreases pat@.len() - k,
    {
        assert(i + k < total);
        if s[i + k] != pat[k] {
            proof {
                assert(s@.skip(i as int).take(pat@.len() as int)[k as int] == s@[i + k]);
            }
            return false;
        }
        k += 1;
    }
    proof {
        assert(s@.skip(i as int).take(pat@.len() as int) =~= pat@);
    }
    true
}

/// Left-to-right, non-overlapping replacement of every occurrence of `pat`
/// by `rep`.
#[verifier::loop_isolation(false)]
pub fn replace_all(s: &Vec<u8>, pat: &Vec<u8>, rep: &Vec<u8>) -> (r: Vec<u8>)
    ensures
        r@ == replace_all_spec(s@, pat@, rep@),
{
    let ghost t = s@;
    let ghost p = pat@;
    let ghost q = rep@;
    let mut r: Vec<u8> = Vec::new();
    let mut i: usize = 0;
    proof {
        assert(t.skip(0) =~= t);
    }
    while i < s.len()
        invariant
            i <= t.len(),
            replace_all_spec(t, p, q) == r@ + replace_all_spec(t.skip(i as int), p, q),
        decreases t.len() - i,
    {
        let ghost u = t.skip(i as int);
        if pat.len() > 0 && pat.len() <= s.len() - i && match_at(s, i, pat) {
            proof {
                assert(u.take(p.len() as int) =~= t.skip(i as int).take(p.len() as int));
                assert(replace_all_spec(u, p, q) == q + replace_all_spec(
                    u.skip(p.len() as int),
                    p,
                    q,
                ));
                assert(u.skip(p.len() as int) =~= t.skip(i + p.len()));
            }
            let mut k: usize = 0;
            let ghost r0 = r@;
            while k < rep.len()
                invariant
                    k <= q.len(),
                    r@ == r0 + q.take(k as int),
                decreases q.len() - k,
            {
                r.push(rep[k]);
                proof {
                    assert(q.take(k + 1 as int) =~= q.take(k as int).push(q[k as int]));
                }
                k += 1;
            }
            proof {
                assert(q.take(q.len() as int) =~= q);
            }
            i += pat.len();
        } else {
            r.push(s[i]);
            proof {
                assert(u[0] == t[i as int]);
                if p.len() == 0 || u.len() < p.len() {
                    // the remainder is shorter than the pattern: the spec
                    // copies it unchanged, which the loop does byte by byte
                    assert(replace_all_spec(u, p, q) == u);
                    assert(replace_all_spec(u.skip(1), p, q) == u.skip(1));
                    assert(u =~= seq![u[0]] + u.skip(1));
                } else {
                    assert(u.take(p.len() as int) != p);
                    assert(replace_all_spec(u, p, q) == seq![u[0]] + replace_all_spec(
                        u.skip(1),
                        p,
                        q,
                    ));
                }
                assert(u.skip(1) =~= t.skip(i + 1));
            }
            i += 1;
        }
    }
    proof {
        assert(t.skip(t.len() as int) =~= Seq::<u8>::empty());
    }
    r
}

/// For each token `t` in `escape_chars`, in order, replaces the literal
/// sequence `\t` by `t`. With an empty token list this is the identity.
#[verifier::loop_isolation(false)]
pub fn unescape_text(text: &Vec<u8>, escape_chars: &Vec<Vec<u8>>) -> (r: Vec<u8>)
    ensures
        r@ == unescape_spec(text@, escape_chars.deep_view()),
        escape_chars@.len() == 0 ==> r@ == text@,
{
    let ghost cs = escape_chars.deep_view();
    let mut r: Vec<u8> = Vec::new();
    let mut m: usize = 0;
    while m < text.len()
        invariant
            m <= text@.len(),
            r@ == text@.take(m as int),
        decreases text@.len() - m,
    {
        r.push(text[m]);
        proof {
            assert(text@.take(m + 1 as int) =~= text@.take(m as int).push(text@[m as int]));
        }
        m += 1;
    }
    proof {
        assert(text@.take(text@.len() as int) =~= text@);
        assert(cs.skip(0) =~= cs);
    }
    let mut k: usize = 0;
    while k < escape_chars.len()
        invariant
            k <= cs.len(),
            unescape_spec(text@, cs) == unescape_spec(r@, cs.skip(k as int)),
        decreases cs.len() - k,
    {
        let mut pattern: Vec<u8> = Vec::new();
        pattern.push(BS);
        let mut m2: usize = 0;
        while m2 < escape_chars[k].len()
            invariant
                k < escape_chars@.len(),
                m2 <= escape_chars@[k as int]@.len(),
                pattern@ == seq![BS] + escape_chars@[k as int]@.take(m2 as int),
            decreases escape_chars@[k as int]@.len() - m2,
        {
            pattern.push(escape_chars[k][m2]);
            proof {
                let cv = escape_chars@[k as int]@;
                assert(cv.take(m2 + 1 as int) =~= cv.take(m2 as int).push(cv[m2 as int]));
                assert(pattern@ =~= seq![BS] + cv.take(m2 + 1 as int));
            }
            m2 += 1;
        }
        proof {
            let cv = escape_chars@[k as int]@;
            assert(cv.take(cv.len() as int) =~= cv);
            assert(cs[k as int] == cv);
        }
        let replaced = replace_all(&r, &pattern, &escape_chars[k]);
        r = replaced;
        proof {
            assert(cs.skip(k as int)[0] == cs[k as int]);
            assert(cs.skip(k as int).skip(1) =~= cs.skip(k + 1 as int));
        }
        k += 1;
    }
    proof {
        assert(cs.skip(cs.len() as int) =~= Seq::<Seq<u8>>::empty());
    }
    r
}

/// For each token `t` in `escape_chars`, in order, replaces `t` by the
/// literal sequence `\t`. With an empty token list this is the identity.
#[verifier::loop_isolation(false)]
pub fn escape_text(text: &Vec<u8>, escape_chars: &Vec<Vec<u8>>) -> (r: Vec<u8>)
    ensures
        r@ == escape_spec(text@, escape_chars.deep_view()),
        escape_chars@.len() == 0 ==> r@ == text@,
{
    let ghost cs = escape_chars.deep_view();
    let mut r: Vec<u8> = Vec::new();
    let mut m: usize = 0;
    while m < text.len()
        invariant
            m <= text@.len(),
            r@ == text@.take(m as int),
        decreases text@.len() - m,
    {
        r.push(text[m]);
        proof {
            assert(text@.take(m + 1 as int) =~= text@.take(m as int).push(text@[m as int]));
        }
        m += 1;
    }
    proof {
        assert(text@.take(text@.len() as int) =~= text@);
        assert(cs.skip(0) =~= cs);
    }
    let mut k: usize = 0;
    while k < escape_chars.len()
        invariant
            k <= cs.len(),
            escape_spec(text@, cs) == escape_spec(r@, cs.skip(k as int)),
        decreases cs.len() - k,
    {
        let mut replacement: Vec<u8> = Vec::new();
        replacement.push(BS);
        let mut m2: usize = 0;
        while m2 < escape_chars[k].len()
            invariant
                k < escape_chars@.len(),
                m2 <= escape_chars@[k as int]@.len(),
                replacement@ == seq![BS] + escape_chars@[k as int]@.take(m2 as int),
            decreases escape_chars@[k as int]@.len() - m2,
        {
            replacement.push(escape_chars[k][m2]);
            proof {
                let cv = escape_chars@[k as int]@;
                assert(cv.take(m2 + 1 as int) =~= cv.take(m2 as int).push(cv[m2 as int]));
                assert(replacement@ =~= seq![BS] + cv.take(m2 + 1 as int));
            }
            m2 += 1;
        }
        proof {
            let cv = escape_chars@[k as int]@;
            assert(cv.take(cv.len() as int) =~= cv);
            assert(cs[k as int] == cv);
        }
        let replaced = replace_all(&r, &escape_chars[k], &replacement);
        r = replaced;
        proof {
            assert(cs.skip(k as int)[0] == cs[k as int]);
            assert(cs.skip(k as int).skip(1) =~= cs.skip(k + 1 as int));
        }
        k += 1;
    }
    proof {
        assert(cs.skip(cs.len() as int) =~= Seq::<Seq<u8>>::empty());
    }
    r
}

/// Every escape token is a single byte other than the backslash.
pub open spec fn single_byte_tokens(cs: Seq<Seq<u8>>) -> bool {
    forall|i: int| 0 <= i < cs.len() ==> (#[trigger] cs[i]).len() == 1 && cs[i][0] != BS
}

/// No token appears twice.
pub open spec fn distinct_tokens(cs: Seq<Seq<u8>>) -> bool {
    forall|i: int, j: int| 0 <= i < j < cs.len() ==> #[trigger] cs[i] != #[trigger] cs[j]
}

/// The byte `b` is one of the escape tokens.
pub open spec fn token_byte(cs: Seq<Seq<u8>>, b: u8) -> bool {
    exists|i: int| 0 <= i < cs.len() && #[trigger] cs[i] == seq![b]
}

/// `s` uses the escaping convention strictly: every backslash starts an
/// escape pair `\t` for some token `t`, and no bare token occurs.
pub open spec fn strictly_escaped(s: Seq<u8>, cs: Seq<Seq<u8>>) -> bool
    decreases s.len(),
{
    if s.len() == 0 {
        true
    } else if s[0] == BS {
        s.len() >= 2 && token_byte(cs, s[1]) && strictly_escaped(s.skip(2), cs)
    } else {
        !token_byte(cs, s[0]) && strictly_escaped(s.skip(1), cs)
    }
}

proof fn lemma_unescape_of_empty(cs: Seq<Seq<u8>>)
    ensures
        unescape_spec(Seq::<u8>::empty(), cs) == Seq::<u8>::empty(),
    decreases cs.len(),
{
    if cs.len() > 0 {
        assert(replace_all_spec(Seq::<u8>::empty(), seq![BS] + cs[0], cs[0]) == Seq::<
            u8,
        >::empty());
        lemma_unescape_of_empty(cs.skip(1));
    }
}

proof fn lemma_escape_of_empty(cs: Seq<Seq<u8>>)
    ensures
        escape_spec(Seq::<u8>::empty(), cs) == Seq::<u8>::empty(),
    decreases cs.len(),
{
    if cs.len() > 0 {
        assert(replace_all_spec(Seq::<u8>::empty(), cs[0], seq![BS] + cs[0]) == Seq::<
            u8,
        >::empty());
        lemma_escape_of_empty(cs.skip(1));
    }
}

proof fn lemma_replace_cons_nomatch(a: u8, x: Seq<u8>, pat: Seq<u8>, rep: Seq<u8>)
    requires
        pat.len() >= 1,
        a != pat[0],
    ensures
        replace_all_spec(seq![a] + x, pat, rep) == seq![a] + replace_all_spec(x, pat, rep),
{
    let w = seq![a] + x;
    assert(w[0] == a);
    if w.len() < pat.len() {
        assert(x.len() < pat.len());
        assert(replace_all_spec(x, pat, rep) == x);
        assert(replace_all_spec(w, pat, rep) == w);
    } else {
        assert(w.take(pat.len() as int) != pat) by {
            if w.take(pat.len() as int) == pat {
                assert(w.take(pat.len() as int)[0] == pat[0]);
            }
        }
        assert(replace_all_spec(w, pat, rep) == seq![a] + replace_all_spec(w.skip(1), pat, rep));
        assert(w.skip(1) =~= x);
    }
}

proof fn lemma_unescape_cons(a: u8, x: Seq<u8>, cs: Seq<Seq<u8>>)
    requires
        a != BS,
        single_byte_tokens(cs),
    ensures
        unescape_spec(seq![a] + x, cs) == seq![a] + unescape_spec(x, cs),
    decreases cs.len(),
{
    if cs.len() == 0 {
    } else {
        let p = seq![BS] + cs[0];
        assert(p[0] == BS);
        lemma_replace_cons_nomatch(a, x, p, cs[0]);
        assert(single_byte_tokens(cs.skip(1))) by {
            assert(forall|i: int| 0 <= i < cs.skip(1).len() ==> #[trigger] cs.skip(1)[i] == cs[i
                + 1]);
        }
        lemma_unescape_cons(a, replace_all_spec(x, p, cs[0]), cs.skip(1));
    }
}

proof fn lemma_escape_cons(a: u8, x: Seq<u8>, cs: Seq<Seq<u8>>)
    requires
        single_byte_tokens(cs),
        forall|i: int| 0 <= i < cs.len() ==> #[trigger] cs[i] != seq![a],
    ensures
        escape_spec(seq![a] + x, cs) == seq![a] + escape_spec(x, cs),
    decreases cs.len(),
{
    if cs.len() == 0 {
    } else {
        assert(cs[0][0] != a) by {
            if cs[0][0] == a {
                assert(cs[0] =~= seq![a]);
            }
        }
        lemma_replace_cons_nomatch(a, x, cs[0], seq![BS] + cs[0]);
        assert(single_byte_tokens(cs.skip(1)) && forall|i: int|
            0 <= i < cs.skip(1).len() ==> #[trigger] cs.skip(1)[i] != seq![a]) by {
            assert(forall|i: int| 0 <= i < cs.skip(1).len() ==> #[trigger] cs.skip(1)[i] == cs[i
                + 1]);
        }
        lemma_escape_cons(a, replace_all_spec(x, cs[0], seq![BS] + cs[0]), cs.skip(1));
    }
}

proof fn lemma_unescape_pair(c: u8, x: Seq<u8>, cs: Seq<Seq<u8>>)
    requires
        single_byte_tokens(cs),
        token_byte(cs, c),
    ensures
        unescape_spec(seq![BS, c] + x, cs) == seq![c] + unescape_spec(x, cs),
    decreases cs.len(),
{
    let w = seq![BS, c] + x;
    let p = seq![BS] + cs[0];
    assert(cs.len() >= 1);
    let c0 = cs[0][0];
    assert(cs[0] =~= seq![c0]);
    assert(p =~= seq![BS, c0]);
    assert(single_byte_tokens(cs.skip(1))) by {
        assert(forall|i: int| 0 <= i < cs.skip(1).len() ==> #[trigger] cs.skip(1)[i] == cs[i + 1]);
    }
    if c0 == c {
        assert(w.take(2) =~= p);
        assert(replace_all_spec(w, p, cs[0]) == cs[0] + replace_all_spec(w.skip(2), p, cs[0]));
        assert(w.skip(2) =~= x);
        assert(cs[0] + replace_all_spec(x, p, cs[0]) =~= seq![c] + replace_all_spec(x, p, cs[0]));
        lemma_unescape_cons(c, replace_all_spec(x, p, cs[0]), cs.skip(1));
    } else {
        assert(w.take(2) != p) by {
            if w.take(2) == p {
                assert(w.take(2)[1] == p[1]);
                assert(w[1] == c && p[1] == c0);
            }
        }
        assert(replace_all_spec(w, p, cs[0]) == seq![BS] + replace_all_spec(w.skip(1), p, cs[0]));
        assert(w.skip(1) =~= seq![c] + x);
        lemma_replace_cons_nomatch(c, x, p, cs[0]);
        assert(seq![BS] + (seq![c] + replace_all_spec(x, p, cs[0])) =~= seq![BS, c]
            + replace_all_spec(x, p, cs[0]));
        assert(token_byte(cs.skip(1), c)) by {
            let i = choose|i: int| 0 <= i < cs.len() && #[trigger] cs[i] == seq![c];
            assert(i >= 1);
            assert(cs.skip(1)[i - 1] == cs[i]);
        }
        lemma_unescape_pair(c, replace_all_spec(x, p, cs[0]), cs.skip(1));
    }
}

proof fn lemma_escape_token(c: u8, x: Seq<u8>, cs: Seq<Seq<u8>>)
    requires
        single_byte_tokens(cs),
        distinct_tokens(cs),
        token_byte(cs, c),
    ensures
        escape_spec(seq![c] + x, cs) == seq![BS, c] + escape_spec(x, cs),
    decreases cs.len(),
{
    let w = seq![c] + x;
    assert(cs.len() >= 1);
    let c0 = cs[0][0];
    assert(cs[0] =~= seq![c0]);
    assert(single_byte_tokens(cs.skip(1)) && distinct_tokens(cs.skip(1))) by {
        assert(forall|i: int| 0 <= i < cs.skip(1).len() ==> #[trigger] cs.skip(1)[i] == cs[i + 1]);
    }
    let y = replace_all_spec(x, cs[0], seq![BS] + cs[0]);
    if c0 == c {
        assert(w.take(1) =~= cs[0]);
        assert(replace_all_spec(w, cs[0], seq![BS] + cs[0]) == (seq![BS] + cs[0])
            + replace_all_spec(w.skip(1), cs[0], seq![BS] + cs[0]));
        assert(w.skip(1) =~= x);
        assert((seq![BS] + cs[0]) + y =~= seq![BS] + (seq![c] + y));
        // the remaining tokens touch neither the new backslash nor the token
        // it protects
        assert(forall|i: int| 0 <= i < cs.skip(1).len() ==> #[trigger] cs.skip(1)[i] != seq![BS])
            by {
            assert(forall|i: int|
                0 <= i < cs.skip(1).len() ==> (#[trigger] cs.skip(1)[i]).len() == 1 && cs.skip(
                    1,
                )[i][0] != BS);
            assert forall|i: int| 0 <= i < cs.skip(1).len() implies #[trigger] cs.skip(1)[i]
                != seq![BS] by {
                if cs.skip(1)[i] == seq![BS] {
                    assert(cs.skip(1)[i][0] == BS);
                }
            }
        }
        assert(forall|i: int| 0 <= i < cs.skip(1).len() ==> #[trigger] cs.skip(1)[i] != seq![c])
            by {
            assert forall|i: int| 0 <= i < cs.skip(1).len() implies #[trigger] cs.skip(1)[i]
                != seq![c] by {
                assert(cs.skip(1)[i] == cs[i + 1]);
                assert(cs[0] != cs[i + 1]);
            }
        }
        lemma_escape_cons(BS, seq![c] + y, cs.skip(1));
        lemma_escape_cons(c, y, cs.skip(1));
        assert(seq![BS] + (seq![c] + escape_spec(y, cs.skip(1))) =~= seq![BS, c] + escape_spec(
            y,
            cs.skip(1),
        ));
    } else {
        assert(w.take(1) != cs[0]) by {
            if w.take(1) == cs[0] {
                assert(w.take(1)[0] == cs[0][0]);
            }
        }
        lemma_replace_cons_nomatch(c, x, cs[0], seq![BS] + cs[0]);
        assert(token_byte(cs.skip(1), c)) by {
            let i = choose|i: int| 0 <= i < cs.len() && #[trigger] cs[i] == seq![c];
            assert(i >= 1);
            assert(cs.skip(1)[i - 1] == cs[i]);
        }
        lemma_escape_token(c, y, cs.skip(1));
    }
}

/// Escaping after unescaping gives back the original text for any set of
/// distinct single-byte escape tokens (none of them the backslash itself),
/// whenever every backslash in the input starts an escape pair and no bare
/// token occurs: the convention a host grammar's escaping produces.
pub proof fn lemma_escape_unescape_set_roundtrip(s: Seq<u8>, cs: Seq<Seq<u8>>)
    requires
        single_byte_tokens(cs),
        distinct_tokens(cs),
        strictly_escaped(s, cs),
    ensures
        escape_spec(unescape_spec(s, cs), cs) == s,
    decreases s.len(),
{
    if s.len() == 0 {
        assert(s =~= Seq::<u8>::empty());
        lemma_unescape_of_empty(cs);
        lemma_escape_of_empty(cs);
    } else if s[0] == BS {
        let c = s[1];
        let rest = s.skip(2);
        assert(token_byte(cs, c) && strictly_escaped(rest, cs));
        lemma_escape_unescape_set_roundtrip(rest, cs);
        assert(seq![BS, c] + rest =~= s);
        lemma_unescape_pair(c, rest, cs);
        assert(unescape_spec(s, cs) == seq![c] + unescape_spec(rest, cs));
        lemma_escape_token(c, unescape_spec(rest, cs), cs);
        assert(escape_spec(unescape_spec(s, cs), cs) == seq![BS, c] + escape_spec(
            unescape_spec(rest, cs),
            cs,
        ));
        assert(escape_spec(unescape_spec(rest, cs), cs) == rest);
        assert(escape_spec(unescape_spec(s, cs), cs) == seq![BS, c] + rest);
    } else {
        let a = s[0];
        let rest = s.skip(1);
        assert(!token_byte(cs, a));
        lemma_escape_unescape_set_roundtrip(rest, cs);
        assert(seq![a] + rest =~= s);
        lemma_unescape_cons(a, rest, cs);
        assert(forall|i: int| 0 <= i < cs.len() ==> #[trigger] cs[i] != seq![a]) by {
            assert forall|i: int| 0 <= i < cs.len() implies #[trigger] cs[i] != seq![a] by {
                if cs[i] == seq![a] {
                    assert(token_byte(cs, a));
                }
            }
        }
        lemma_escape_cons(a, unescape_spec(rest, cs), cs);
        assert(escape_spec(unescape_spec(s, cs), cs) == seq![a] + rest);
    }
}

/// `s` uses the escaping convention for the single-byte token `c`: every
/// occurrence of `c` in `s` is immediately preceded by a backslash.
pub open spec fn well_escaped(s: Seq<u8>, c: u8) -> bool
    decreases s.len(),
{
    if s.len() == 0 {
        true
    } else if s.len() >= 2 && s[0] == BS && s[1] == c {
        well_escaped(s.skip(2), c)
    } else if s[0] == c {
        false
    } else {
        well_escaped(s.skip(1), c)
    }
}

proof fn lemma_replace_roundtrip_single(s: Seq<u8>, c: u8)
    requires
        c != BS,
        well_escaped(s, c),
    ensures
        replace_all_spec(
            replace_all_spec(s, seq![BS, c], seq![c]),
            seq![c],
            seq![BS, c],
        ) == s,
    decreases s.len(),
{
    let upat = seq![BS, c];
    let etok = seq![c];
    if s.len() == 0 {
        assert(replace_all_spec(replace_all_spec(s, upat, etok), etok, upat) =~= s);
    } else if s.len() >= 2 && s[0] == BS && s[1] == c {
        let rest = s.skip(2);
        lemma_replace_roundtrip_single(rest, c);
        assert(s.take(2) =~= upat);
        let u = replace_all_spec(rest, upat, etok);
        assert(replace_all_spec(s, upat, etok) == etok + u);
        assert((etok + u).take(1) =~= etok);
        assert(replace_all_spec(etok + u, etok, upat) == upat + replace_all_spec(
            (etok + u).skip(1),
            etok,
            upat,
        ));
        assert((etok + u).skip(1) =~= u);
        assert(upat + rest =~= s);
    } else if s.len() == 1 {
        assert(s[0] != c);
        let u = replace_all_spec(s, upat, etok);
        assert(u == s);
        assert(s.take(1) =~= seq![s[0]]);
        assert(s.take(1) != etok) by {
            if s.take(1) == etok {
                assert(s.take(1)[0] == etok[0]);
            }
        }
        assert(replace_all_spec(s, etok, upat) == seq![s[0]] + replace_all_spec(
            s.skip(1),
            etok,
            upat,
        ));
        assert(s.skip(1).len() == 0);
        assert(seq![s[0]] + s.skip(1) =~= s);
    } else {
        assert(s[0] != c);
        let rest = s.skip(1);
        assert(well_escaped(rest, c));
        lemma_replace_roundtrip_single(rest, c);
        assert(s.take(2) != upat) by {
            if s[0] == BS {
                assert(s[1] != c);
                assert(s.take(2)[1] == s[1]);
            } else {
                assert(s.take(2)[0] == s[0]);
            }
        }
        let u = replace_all_spec(rest, upat, etok);
        assert(replace_all_spec(s, upat, etok) == seq![s[0]] + u);
        let w = seq![s[0]] + u;
        assert(w[0] == s[0]);
        assert(w.take(1) =~= seq![s[0]]);
        assert(w.take(1) != etok) by {
            if w.take(1) == etok {
                assert(w.take(1)[0] == etok[0]);
            }
        }
        assert(replace_all_spec(w, etok, upat) == seq![s[0]] + replace_all_spec(
            w.skip(1),
            etok,
            upat,
        ));
        assert(w.skip(1) =~= u);
        assert(seq![s[0]] + rest =~= s);
    }
}

/// Escaping after unescaping gives back the original text, for a single
/// one-byte escape token other than the backslash itself, whenever every
/// occurrence of the token in the input is already backslash-escaped.
pub proof fn lemma_escape_unescape_roundtrip(s: Seq<u8>, c: u8)
    requires
        c != BS,
        well_escaped(s, c),
    ensures
        escape_spec(unescape_spec(s, seq![seq![c]]), seq![seq![c]]) == s,
{
    let cs = seq![seq![c]];
    assert(cs[0] == seq![c]);
    assert(seq![BS] + seq![c] =~= seq![BS, c]);
    assert(cs.skip(1) =~= Seq::<Seq<u8>>::empty());
    lemma_replace_roundtrip_single(s, c);
    let y = replace_all_spec(s, seq![BS, c], seq![c]);
    assert(unescape_spec(s, cs) == unescape_spec(y, cs.skip(1)));
    assert(unescape_spec(y, cs.skip(1)) == y);
    let z = replace_all_spec(y, seq![c], seq![BS, c]);
    assert(escape_spec(y, cs) == escape_spec(z, cs.skip(1)));
    assert(escape_spec(z, cs.skip(1)) == z);
}

} // verus!
