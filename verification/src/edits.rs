use vstd::prelude::*;

verus! {

/// A byte-range replacement record: the bytes of `[start_byte, end_byte)`
/// are replaced by `replacement`.
pub struct Edit {
    pub start_byte: usize,
    pub end_byte: usize,
    pub replacement: Vec<u8>,
}

/// Mathematical model of one edit: start, end, replacement bytes.
pub open spec fn edit_model(e: Edit) -> (int, int, Seq<u8>) {
    (e.start_byte as int, e.end_byte as int, e.replacement@)
}

/// Model of a list of edits.
pub open spec fn edits_view(es: Seq<Edit>) -> Seq<(int, int, Seq<u8>)> {
    es.map_values(|e: Edit| edit_model(e))
}

/// Every edit lies inside a buffer of length `n`.
pub open spec fn edits_in_range(es: Seq<(int, int, Seq<u8>)>, n: int) -> bool {
    forall|i: int| 0 <= i < es.len() ==> 0 <= #[trigger] es[i].0 <= es[i].1 <= n
}

/// No two edits overlap (touching ranges are allowed).
pub open spec fn edits_disjoint(es: Seq<(int, int, Seq<u8>)>) -> bool {
    forall|i: int, j: int|
        0 <= i < j < es.len() ==> (#[trigger] es[i]).1 <= (#[trigger] es[j]).0 || es[j].1 <= es[i].0
}

/// Edits are ordered by descending start byte.
pub open spec fn sorted_desc(es: Seq<(int, int, Seq<u8>)>) -> bool {
    forall|i: int, j: int| 0 <= i < j < es.len() ==> (#[trigger] es[i]).0 >= (#[trigger] es[j]).0
}

/// Splicing a single edit into a buffer.
pub open spec fn splice_one(buf: Seq<u8>, e: (int, int, Seq<u8>)) -> Seq<u8> {
    buf.take(e.0) + e.2 + buf.skip(e.1)
}

/// Applying a list of edits one by one, first element first.
pub open spec fn apply_edits_model(buf: Seq<u8>, es: Seq<(int, int, Seq<u8>)>) -> Seq<u8>
    decreases es.len(),
{
    if es.len() == 0 {
        buf
    } else {
        apply_edits_model(splice_one(buf, es[0]), es.skip(1))
    }
}

/// Stable insertion of `e` into a list sorted by descending start byte:
/// `e` goes after every element whose start is greater than or equal.
pub open spec fn insert_desc(s: Seq<(int, int, Seq<u8>)>, e: (int, int, Seq<u8>)) -> Seq<
    (int, int, Seq<u8>),
>
    decreases s.len(),
{
    if s.len() == 0 {
        seq![e]
    } else if s.last().0 >= e.0 {
        s.push(e)
    } else {
        insert_desc(s.drop_last(), e).push(s.last())
    }
}

/// Stable sort by descending start byte, as repeated insertion.
pub open spec fn sort_desc(es: Seq<(int, int, Seq<u8>)>) -> Seq<(int, int, Seq<u8>)>
    decreases es.len(),
{
    if es.len() == 0 {
        es
    } else {
        insert_desc(sort_desc(es.drop_last()), es.last())
    }
}

proof fn lemma_insert_desc_at(s: Seq<(int, int, Seq<u8>)>, e: (int, int, Seq<u8>), j: int)
    requires
        0 <= j <= s.len(),
        forall|k: int| j <= k < s.len() ==> (#[trigger] s[k]).0 < e.0,
        j > 0 ==> s[j - 1].0 >= e.0,
    ensures
        insert_desc(s, e) == s.take(j) + seq![e] + s.skip(j),
    decreases s.len(),
{
    if s.len() == 0 {
        assert(insert_desc(s, e) =~= s.take(j) + seq![e] + s.skip(j));
    } else if s.last().0 >= e.0 {
        assert(j == s.len());
        assert(s.take(j) == s);
        assert(insert_desc(s, e) =~= s.take(j) + seq![e] + s.skip(j));
    } else {
        assert(j < s.len());
        lemma_insert_desc_at(s.drop_last(), e, j);
        assert(s.drop_last().take(j) == s.take(j));
        assert(insert_desc(s, e) =~= s.take(j) + seq![e] + s.skip(j));
    }
}

proof fn lemma_insert_desc_multiset(s: Seq<(int, int, Seq<u8>)>, e: (int, int, Seq<u8>))
    ensures
        insert_desc(s, e).to_multiset() == s.push(e).to_multiset(),
    decreases s.len(),
{
    broadcast use vstd::seq_lib::group_to_multiset_ensures;

    if s.len() == 0 {
    } else if s.last().0 >= e.0 {
    } else {
        lemma_insert_desc_multiset(s.drop_last(), e);
        assert(s.drop_last().push(e).push(s.last()).to_multiset() =~= s.push(e).to_multiset())
            by {
            assert(s.drop_last().push(e).push(s.last()).to_multiset() =~= s.drop_last().to_multiset().insert(e).insert(s.last()));
            assert(s.push(e).to_multiset() =~= s.to_multiset().insert(e));
            assert(s =~= s.drop_last().push(s.last()));
            assert(s.drop_last().push(s.last()).to_multiset() =~= s.drop_last().to_multiset().insert(s.last()));
        }
    }
}

proof fn lemma_sort_desc_sorted(es: Seq<(int, int, Seq<u8>)>)
    ensures
        sorted_desc(sort_desc(es)),
    decreases es.len(),
{
    if es.len() == 0 {
    } else {
        lemma_sort_desc_sorted(es.drop_last());
        lemma_insert_desc_keeps_sorted(sort_desc(es.drop_last()), es.last());
    }
}

proof fn lemma_insert_desc_keeps_sorted(s: Seq<(int, int, Seq<u8>)>, e: (int, int, Seq<u8>))
    requires
        sorted_desc(s),
    ensures
        sorted_desc(insert_desc(s, e)),
    decreases s.len(),
{
    if s.len() == 0 {
    } else if s.last().0 >= e.0 {
        assert forall|i: int, j: int| 0 <= i < j < s.push(e).len() implies (#[trigger] s.push(
            e,
        )[i]).0 >= (#[trigger] s.push(e)[j]).0 by {
            if j < s.len() {
            } else {
                assert(s.push(e)[j] == e);
                if i < s.len() {
                    assert(s[i].0 >= s.last().0 >= e.0);
                }
            }
        }
    } else {
        assert(sorted_desc(s.drop_last())) by {
            assert(forall|i: int, j: int|
                0 <= i < j < s.drop_last().len() ==> (#[trigger] s.drop_last()[i]).0
                    >= (#[trigger] s.drop_last()[j]).0);
        }
        lemma_insert_desc_keeps_sorted(s.drop_last(), e);
        let t = insert_desc(s.drop_last(), e);
        // every element of t is either e or an element of s.drop_last(),
        // and all of those have start >= s.last().0
        lemma_insert_desc_multiset(s.drop_last(), e);
        assert forall|i: int, j: int| 0 <= i < j < t.push(s.last()).len() implies (
        #[trigger] t.push(s.last())[i]).0 >= (#[trigger] t.push(s.last())[j]).0 by {
            if j < t.len() {
            } else {
                broadcast use vstd::seq_lib::group_to_multiset_ensures;

                assert(t.push(s.last())[j] == s.last());
                assert(t.to_multiset().contains(t[i]));
                assert(s.drop_last().push(e).to_multiset().contains(t[i]));
                assert(s.drop_last().push(e).contains(t[i]));
                if exists|k: int| 0 <= k < s.drop_last().len() && s.drop_last()[k] == t[i] {
                    let k = choose|k: int|
                        0 <= k < s.drop_last().len() && s.drop_last()[k] == t[i];
                    assert(s[k].0 >= s.last().0);
                } else {
                    assert(t[i] == e);
                    assert(e.0 > s.last().0);
                }
            }
        }
    }
}

proof fn lemma_insert_desc_elem(s: Seq<(int, int, Seq<u8>)>, e: (int, int, Seq<u8>), i: int)
    requires
        0 <= i < insert_desc(s, e).len(),
    ensures
        insert_desc(s, e)[i] == e || s.contains(insert_desc(s, e)[i]),
    decreases s.len(),
{
    broadcast use vstd::seq_lib::group_to_multiset_ensures;

    lemma_insert_desc_multiset(s, e);
    let t = insert_desc(s, e);
    assert(t.to_multiset().contains(t[i]));
    assert(s.push(e).to_multiset().contains(t[i]));
    assert(s.push(e).contains(t[i]));
    if t[i] != e {
        let k = choose|k: int| 0 <= k < s.push(e).len() && s.push(e)[k] == t[i];
        assert(k < s.len());
        assert(s.contains(t[i]));
    }
}

/// `e` does not overlap any element of `s`.
pub open spec fn disjoint_from(e: (int, int, Seq<u8>), s: Seq<(int, int, Seq<u8>)>) -> bool {
    forall|i: int| 0 <= i < s.len() ==> e.1 <= (#[trigger] s[i]).0 || s[i].1 <= e.0
}

proof fn lemma_insert_desc_preserves(
    s: Seq<(int, int, Seq<u8>)>,
    e: (int, int, Seq<u8>),
    n: int,
)
    requires
        edits_in_range(s, n),
        edits_disjoint(s),
        0 <= e.0 <= e.1 <= n,
        disjoint_from(e, s),
    ensures
        edits_in_range(insert_desc(s, e), n),
        edits_disjoint(insert_desc(s, e)),
    decreases s.len(),
{
    if s.len() == 0 {
    } else if s.last().0 >= e.0 {
        let t = s.push(e);
        assert forall|i: int, j: int| 0 <= i < j < t.len() implies (#[trigger] t[i]).1 <= (
        #[trigger] t[j]).0 || t[j].1 <= t[i].0 by {
            if j < s.len() {
            } else {
                assert(t[j] == e);
                assert(e.1 <= s[i].0 || s[i].1 <= e.0);
            }
        }
    } else {
        let dl = s.drop_last();
        assert(edits_in_range(dl, n) && edits_disjoint(dl) && disjoint_from(e, dl)) by {
            assert(forall|i: int| 0 <= i < dl.len() ==> #[trigger] dl[i] == s[i]);
        }
        lemma_insert_desc_preserves(dl, e, n);
        let t = insert_desc(dl, e);
        let u = t.push(s.last());
        assert forall|i: int| 0 <= i < u.len() implies 0 <= (#[trigger] u[i]).0 <= u[i].1
            <= n by {
            if i < t.len() {
            } else {
                assert(u[i] == s.last());
            }
        }
        assert forall|i: int, j: int| 0 <= i < j < u.len() implies (#[trigger] u[i]).1 <= (
        #[trigger] u[j]).0 || u[j].1 <= u[i].0 by {
            if j < t.len() {
            } else {
                assert(u[j] == s.last());
                lemma_insert_desc_elem(dl, e, i);
                if t[i] == e {
                    assert(e.1 <= s.last().0 || s.last().1 <= e.0);
                } else {
                    let k = choose|k: int| 0 <= k < dl.len() && dl[k] == t[i];
                    assert(s[k].1 <= s[s.len() - 1].0 || s[s.len() - 1].1 <= s[k].0);
                }
            }
        }
    }
}

proof fn lemma_sort_desc_preserves(es: Seq<(int, int, Seq<u8>)>, n: int)
    requires
        edits_in_range(es, n),
        edits_disjoint(es),
    ensures
        edits_in_range(sort_desc(es), n),
        edits_disjoint(sort_desc(es)),
    decreases es.len(),
{
    if es.len() == 0 {
    } else {
        let dl = es.drop_last();
        assert(edits_in_range(dl, n) && edits_disjoint(dl)) by {
            assert(forall|i: int| 0 <= i < dl.len() ==> #[trigger] dl[i] == es[i]);
        }
        lemma_sort_desc_preserves(dl, n);
        let e = es.last();
        assert(disjoint_from(e, sort_desc(dl))) by {
            assert forall|i: int| 0 <= i < sort_desc(dl).len() implies e.1 <= (
            #[trigger] sort_desc(dl)[i]).0 || sort_desc(dl)[i].1 <= e.0 by {
                lemma_sort_elem(dl, i);
                let k = choose|k: int| 0 <= k < dl.len() && dl[k] == sort_desc(dl)[i];
                assert(es[k].1 <= es[es.len() - 1].0 || es[es.len() - 1].1 <= es[k].0);
            }
        }
        lemma_insert_desc_preserves(sort_desc(dl), e, n);
    }
}

proof fn lemma_sort_elem(es: Seq<(int, int, Seq<u8>)>, i: int)
    requires
        0 <= i < sort_desc(es).len(),
    ensures
        es.contains(sort_desc(es)[i]),
    decreases es.len(),
{
    broadcast use vstd::seq_lib::group_to_multiset_ensures;

    lemma_sort_desc_multiset(es);
    assert(sort_desc(es).to_multiset().contains(sort_desc(es)[i]));
    assert(es.to_multiset().contains(sort_desc(es)[i]));
}

proof fn lemma_sort_desc_multiset(es: Seq<(int, int, Seq<u8>)>)
    ensures
        sort_desc(es).to_multiset() == es.to_multiset(),
    decreases es.len(),
{
    broadcast use vstd::seq_lib::group_to_multiset_ensures;

    if es.len() == 0 {
    } else {
        let dl = es.drop_last();
        lemma_sort_desc_multiset(dl);
        lemma_insert_desc_multiset(sort_desc(dl), es.last());
        assert(sort_desc(dl).push(es.last()).to_multiset() =~= sort_desc(dl).to_multiset().insert(
            es.last(),
        ));
        assert(es =~= dl.push(es.last()));
        assert(dl.push(es.last()).to_multiset() =~= dl.to_multiset().insert(es.last()));
    }
}

/// Sorting a list already in descending order leaves it unchanged.
pub proof fn lemma_sort_desc_identity(es: Seq<(int, int, Seq<u8>)>)
    requires
        sorted_desc(es),
    ensures
        sort_desc(es) == es,
    decreases es.len(),
{
    if es.len() == 0 {
    } else {
        assert(sorted_desc(es.drop_last())) by {
            assert(forall|i: int, j: int|
                0 <= i < j < es.drop_last().len() ==> (#[trigger] es.drop_last()[i]).0
                    >= (#[trigger] es.drop_last()[j]).0);
        }
        lemma_sort_desc_identity(es.drop_last());
        if es.len() == 1 {
            assert(sort_desc(es) =~= es);
        } else {
            assert(es.drop_last().last().0 >= es.last().0);
            assert(sort_desc(es) == es.drop_last().push(es.last()));
            assert(sort_desc(es) =~= es);
        }
    }
}

/// A batch with no edits leaves the buffer unchanged: a format pass that
/// found no injected regions splices nothing.
pub proof fn lemma_apply_no_edits(buf: Seq<u8>)
    ensures
        apply_edits_model(buf, sort_desc(Seq::<(int, int, Seq<u8>)>::empty())) == buf,
{
    assert(sort_desc(Seq::<(int, int, Seq<u8>)>::empty()) == Seq::<(int, int, Seq<u8>)>::empty());
}

#[verifier::loop_isolation(false)]
fn insert_sorted(sorted: &mut Vec<Edit>, e: Edit)
    ensures
        edits_view(final(sorted)@) == insert_desc(edits_view(old(sorted)@), edit_model(e)),
{
    let ghost s = edits_view(sorted@);
    let ghost em = edit_model(e);
    let mut j: usize = sorted.len();
    while j > 0 && sorted[j - 1].start_byte < e.start_byte
        invariant
            j <= sorted.len(),
            edits_view(sorted@) == s,
            forall|k: int| j <= k < s.len() ==> (#[trigger] s[k]).0 < em.0,
        decreases j,
    {
        assert(s[j - 1] == edit_model(sorted@[j - 1]));
        j -= 1;
    }
    proof {
        if j > 0 {
            assert(s[j - 1] == edit_model(sorted@[j - 1]));
        }
        lemma_insert_desc_at(s, em, j as int);
    }
    sorted.insert(j, e);
    proof {
        assert(edits_view(sorted@) =~= s.take(j as int) + seq![em] + s.skip(j as int)) by {
            assert(forall|k: int|
                0 <= k < sorted@.len() ==> edits_view(sorted@)[k] == edit_model(
                    #[trigger] sorted@[k],
                ));
        }
    }
}

#[verifier::loop_isolation(false)]
fn sort_edits(edits: Vec<Edit>) -> (r: Vec<Edit>)
    ensures
        edits_view(r@) == sort_desc(edits_view(edits@)),
{
    let ghost orig = edits@;
    let mut work = edits;
    let mut sorted: Vec<Edit> = Vec::new();
    proof {
        assert(orig.skip(0) =~= orig);
        assert(edits_view(sorted@) =~= Seq::<(int, int, Seq<u8>)>::empty());
        assert(edits_view(orig.take(0)) =~= Seq::<(int, int, Seq<u8>)>::empty());
    }
    while work.len() > 0
        invariant
            work@.len() <= orig.len(),
            work@ == orig.skip(orig.len() - work@.len()),
            edits_view(sorted@) == sort_desc(
                edits_view(orig.take(orig.len() - work@.len())),
            ),
        decreases work@.len(),
    {
        let ghost oldwork = work@;
        let ghost done = orig.take(orig.len() - oldwork.len());
        let e = work.remove(0);
        proof {
            assert(oldwork == orig.skip(done.len() as int));
            assert(e == oldwork[0]);
            assert(oldwork[0] == orig[done.len() as int]);
            assert(work@ =~= orig.skip(done.len() + 1 as int)) by {
                assert(work@ == oldwork.remove(0));
                assert(forall|i: int|
                    0 <= i < work@.len() ==> oldwork.remove(0)[i] == oldwork[i + 1]);
            }
            let done2 = orig.take(done.len() + 1 as int);
            assert(orig.len() - work@.len() == done.len() + 1);
            assert(done2 =~= done.push(e));
            assert(done2.drop_last() =~= done);
            assert(edits_view(done2) =~= edits_view(done).push(edit_model(e))) by {
                assert(forall|k: int|
                    0 <= k < done2.len() ==> edits_view(done2)[k] == edit_model(
                        #[trigger] done2[k],
                    ));
            }
            assert(edits_view(done2).drop_last() =~= edits_view(done));
            assert(edits_view(done2).last() == edit_model(e));
        }
        insert_sorted(&mut sorted, e);
    }
    proof {
        assert(orig.take(orig.len() as int) =~= orig);
    }
    sorted
}

#[verifier::loop_isolation(false)]
fn splice_exec(buf: Vec<u8>, start: usize, end: usize, replacement: &Vec<u8>) -> (r: Vec<u8>)
    requires
        start <= end <= buf@.len(),
    ensures
        r@ == buf@.take(start as int) + replacement@ + buf@.skip(end as int),
{
    let mut r: Vec<u8> = Vec::new();
    let mut i: usize = 0;
    while i < start
        invariant
            i <= start <= buf@.len(),
            r@ == buf@.take(i as int),
        decreases start - i,
    {
        r.push(buf[i]);
        proof {
            assert(buf@.take(i + 1 as int) =~= buf@.take(i as int).push(buf@[i as int]));
        }
        i += 1;
    }
    let mut k: usize = 0;
    while k < replacement.len()
        invariant
            k <= replacement@.len(),
            start <= end <= buf@.len(),
            r@ == buf@.take(start as int) + replacement@.take(k as int),
        decreases replacement@.len() - k,
    {
        r.push(replacement[k]);
        proof {
            assert(replacement@.take(k + 1 as int) =~= replacement@.take(k as int).push(
                replacement@[k as int],
            ));
            assert(r@ =~= buf@.take(start as int) + replacement@.take(k + 1 as int));
        }
        k += 1;
    }
    proof {
        assert(replacement@.take(replacement@.len() as int) =~= replacement@);
    }
    let mut m: usize = end;
    while m < buf.len()
        invariant
            end <= m <= buf@.len(),
            start <= end,
            r@ == buf@.take(start as int) + replacement@ + buf@.skip(end as int).take(
                m - end as int,
            ),
        decreases buf@.len() - m,
    {
        r.push(buf[m]);
        proof {
            let tail = buf@.skip(end as int);
            assert(tail.take(m + 1 - end as int) =~= tail.take(m - end as int).push(
                buf@[m as int],
            ));
            assert(r@ =~= buf@.take(start as int) + replacement@ + tail.take(m + 1 - end as int));
        }
        m += 1;
    }
    proof {
        let tail = buf@.skip(end as int);
        assert(tail.take(tail.len() as int) =~= tail);
    }
    r
}

/// Applies a batch of byte-range edits to `source`: the edits are sorted by
/// descending start byte and spliced in one by one, so earlier splices do not
/// shift the offsets used by later ones.
#[verifier::loop_isolation(false)]
pub fn apply_edits(source: Vec<u8>, edits: Vec<Edit>) -> (r: Vec<u8>)
    requires
        edits_in_range(edits_view(edits@), source@.len() as int),
        edits_disjoint(edits_view(edits@)),
    ensures
        r@ == apply_edits_model(source@, sort_desc(edits_view(edits@))),
{
    let ghost src0 = source@;
    let ghost ev0 = edits_view(edits@);
    let sorted = sort_edits(edits);
    let ghost ev = edits_view(sorted@);
    proof {
        lemma_sort_desc_preserves(ev0, src0.len() as int);
        lemma_sort_desc_sorted(ev0);
    }
    let mut current = source;
    let mut k: usize = 0;
    proof {
        assert(ev.skip(0) =~= ev);
    }
    while k < sorted.len()
        invariant
            k <= sorted@.len(),
            edits_view(sorted@) == ev,
            sorted_desc(ev),
            edits_disjoint(ev),
            apply_edits_model(src0, ev) == apply_edits_model(current@, ev.skip(k as int)),
            forall|i: int|
                k <= i < ev.len() ==> 0 <= (#[trigger] ev[i]).0 <= ev[i].1 <= current@.len(),
        decreases sorted@.len() - k,
    {
        proof {
            assert(ev[k as int] == edit_model(sorted@[k as int]));
        }
        let ghost oldbuf = current@;
        let start = sorted[k].start_byte;
        let end = sorted[k].end_byte;
        current = splice_exec(current, start, end, &sorted[k].replacement);
        proof {
            let e = ev[k as int];
            assert(current@ == splice_one(oldbuf, e));
            assert(ev.skip(k as int)[0] == e);
            assert(ev.skip(k as int).skip(1) =~= ev.skip(k + 1 as int));
            assert(apply_edits_model(oldbuf, ev.skip(k as int)) == apply_edits_model(
                current@,
                ev.skip(k + 1 as int),
            ));
            let newlen = current@.len() as int;
            assert(newlen == e.0 + e.2.len() + (oldbuf.len() - e.1));
            assert forall|i: int| k + 1 <= i < ev.len() implies 0 <= (#[trigger] ev[i]).0
                <= ev[i].1 <= newlen by {
                assert(ev[i].1 <= e.0 || e.1 <= ev[i].0);
                assert(ev[k as int].0 >= ev[i].0);
                if e.1 <= ev[i].0 {
                    assert(e.0 == e.1);
                    assert(newlen >= oldbuf.len());
                }
            }
        }
        k += 1;
    }
    proof {
        assert(ev.skip(ev.len() as int) =~= Seq::<(int, int, Seq<u8>)>::empty());
    }
    current
}

} // verus!
