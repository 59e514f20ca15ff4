use vstd::prelude::*;
use crate::plugin::FormatError;

verus! {

/// A byte range in the working buffer.
#[derive(Debug, Clone, Copy)]
pub struct ByteRange {
    pub start_byte: usize,
    pub end_byte: usize,
}

/// Per-region injection options: the substrings the host escapes with a
/// leading backslash inside the region. Order is irrelevant; both escape
/// directions sort the set before use.
#[derive(Debug)]
pub struct InjectionOpts {
    pub escape_chars: Vec<Vec<u8>>,
}

/// An embedded fragment of another language: its byte range in the working
/// buffer, the guest language, and the host's escape options.
#[derive(Debug)]
pub struct InjectedRegion {
    pub range: ByteRange,
    pub lang: String,
    pub opts: InjectionOpts,
}

/// Mathematical model of one region: start, end, language, escape tokens.
pub open spec fn region_model(r: InjectedRegion) -> (int, int, Seq<char>, Seq<Seq<u8>>) {
    (
        r.range.start_byte as int,
        r.range.end_byte as int,
        r.lang@,
        r.opts.escape_chars.deep_view(),
    )
}

/// Model of a region list.
pub open spec fn regions_view(rs: Seq<InjectedRegion>) -> Seq<(int, int, Seq<char>, Seq<Seq<u8>>)> {
    rs.map_values(|r: InjectedRegion| region_model(r))
}

/// A region worth keeping: non-empty and inside the buffer.
pub open spec fn keep_region(m: (int, int, Seq<char>, Seq<Seq<u8>>), n: int) -> bool {
    0 <= m.0 < m.1 <= n
}

/// The regions that survive the range filter, in order.
pub open spec fn filter_regions_spec(rs: Seq<(int, int, Seq<char>, Seq<Seq<u8>>)>, n: int) -> Seq<
    (int, int, Seq<char>, Seq<Seq<u8>>),
>
    decreases rs.len(),
{
    if rs.len() == 0 {
        Seq::empty()
    } else {
        let head: Seq<(int, int, Seq<char>, Seq<Seq<u8>>)> = if keep_region(rs[0], n) {
            seq![rs[0]]
        } else {
            Seq::empty()
        };
        head + filter_regions_spec(rs.skip(1), n)
    }
}

/// `a` orders at or before `b`: earlier start, or same start and an end at
/// least as late (outermost first on ties).
pub open spec fn reg_before_eq(
    a: (int, int, Seq<char>, Seq<Seq<u8>>),
    b: (int, int, Seq<char>, Seq<Seq<u8>>),
) -> bool {
    a.0 < b.0 || (a.0 == b.0 && a.1 >= b.1)
}

/// Stable insertion for the region order.
pub open spec fn insert_reg(
    s: Seq<(int, int, Seq<char>, Seq<Seq<u8>>)>,
    e: (int, int, Seq<char>, Seq<Seq<u8>>),
) -> Seq<(int, int, Seq<char>, Seq<Seq<u8>>)>
    decreases s.len(),
{
    if s.len() == 0 {
        seq![e]
    } else if reg_before_eq(s.last(), e) {
        s.push(e)
    } else {
        insert_reg(s.drop_last(), e).push(s.last())
    }
}

/// Stable sort by ascending start byte, outermost first on ties.
pub open spec fn sort_reg(s: Seq<(int, int, Seq<char>, Seq<Seq<u8>>)>) -> Seq<
    (int, int, Seq<char>, Seq<Seq<u8>>),
>
    decreases s.len(),
{
    if s.len() == 0 {
        s
    } else {
        insert_reg(sort_reg(s.drop_last()), s.last())
    }
}

/// Sorted by ascending start byte.
pub open spec fn sorted_asc(s: Seq<(int, int, Seq<char>, Seq<Seq<u8>>)>) -> bool {
    forall|i: int, j: int| 0 <= i < j < s.len() ==> (#[trigger] s[i]).0 <= (#[trigger] s[j]).0
}

/// Outermost-wins selection over a list sorted ascending: regions that start
/// after the last kept region's end are kept, regions contained in it are
/// dropped, and a partial overlap cannot be reconciled.
pub open spec fn select_rec(
    rs: Seq<(int, int, Seq<char>, Seq<Seq<u8>>)>,
    last: (int, int, Seq<char>, Seq<Seq<u8>>),
) -> Option<Seq<(int, int, Seq<char>, Seq<Seq<u8>>)>>
    decreases rs.len(),
{
    if rs.len() == 0 {
        Option::Some(Seq::empty())
    } else if rs[0].0 >= last.1 {
        match select_rec(rs.skip(1), rs[0]) {
            Option::Some(t) => Option::Some(seq![rs[0]] + t),
            Option::None => Option::None,
        }
    } else if rs[0].1 <= last.1 {
        select_rec(rs.skip(1), last)
    } else {
        Option::None
    }
}

/// Outermost-wins selection of a sorted region list; `None` when a partial
/// overlap cannot be reconciled.
pub open spec fn select_spec(rs: Seq<(int, int, Seq<char>, Seq<Seq<u8>>)>) -> Option<
    Seq<(int, int, Seq<char>, Seq<Seq<u8>>)>,
> {
    if rs.len() == 0 {
        Option::Some(Seq::empty())
    } else {
        match select_rec(rs.skip(1), rs[0]) {
            Option::Some(t) => Option::Some(seq![rs[0]] + t),
            Option::None => Option::None,
        }
    }
}

/// The normalized region list of a raw extraction: range-filtered, overlap
/// reconciled outermost-wins, and ordered by descending start byte so that
/// splicing in iteration order is safe. `None` when the raw regions overlap
/// beyond reconciliation.
pub open spec fn normalized_spec(raw: Seq<(int, int, Seq<char>, Seq<Seq<u8>>)>, n: int) -> Option<
    Seq<(int, int, Seq<char>, Seq<Seq<u8>>)>,
> {
    match select_spec(sort_reg(filter_regions_spec(raw, n))) {
        Option::Some(t) => Option::Some(t.reverse()),
        Option::None => Option::None,
    }
}

/// No two regions overlap.
pub open spec fn regions_disjoint(s: Seq<(int, int, Seq<char>, Seq<Seq<u8>>)>) -> bool {
    forall|i: int, j: int|
        0 <= i < j < s.len() ==> (#[trigger] s[i]).1 <= (#[trigger] s[j]).0 || s[j].1 <= s[i].0
}

/// Every region is non-empty and inside a buffer of length `n`.
pub open spec fn regions_in_range(s: Seq<(int, int, Seq<char>, Seq<Seq<u8>>)>, n: int) -> bool {
    forall|i: int| 0 <= i < s.len() ==> keep_region(#[trigger] s[i], n)
}

proof fn lemma_filter_regions_props(rs: Seq<(int, int, Seq<char>, Seq<Seq<u8>>)>, n: int)
    ensures
        regions_in_range(filter_regions_spec(rs, n), n),
    decreases rs.len(),
{
    if rs.len() > 0 {
        lemma_filter_regions_props(rs.skip(1), n);
        let f = filter_regions_spec(rs, n);
        let rest = filter_regions_spec(rs.skip(1), n);
        assert forall|i: int| 0 <= i < f.len() implies keep_region(#[trigger] f[i], n) by {
            if keep_region(rs[0], n) {
                if i == 0 {
                    assert(f[0] == rs[0]);
                } else {
                    assert(f[i] == rest[i - 1]);
                }
            } else {
                assert(f[i] == rest[i]);
            }
        }
    }
}

proof fn lemma_insert_reg_elemwise(
    s: Seq<(int, int, Seq<char>, Seq<Seq<u8>>)>,
    e: (int, int, Seq<char>, Seq<Seq<u8>>),
    n: int,
)
    requires
        regions_in_range(s, n),
        keep_region(e, n),
    ensures
        regions_in_range(insert_reg(s, e), n),
    decreases s.len(),
{
    if s.len() == 0 {
    } else if reg_before_eq(s.last(), e) {
        let t = s.push(e);
        assert forall|i: int| 0 <= i < t.len() implies keep_region(#[trigger] t[i], n) by {
            if i < s.len() {
            } else {
                assert(t[i] == e);
            }
        }
    } else {
        let dl = s.drop_last();
        assert(regions_in_range(dl, n)) by {
            assert(forall|i: int| 0 <= i < dl.len() ==> #[trigger] dl[i] == s[i]);
        }
        lemma_insert_reg_elemwise(dl, e, n);
        let t = insert_reg(dl, e).push(s.last());
        assert forall|i: int| 0 <= i < t.len() implies keep_region(#[trigger] t[i], n) by {
            if i < insert_reg(dl, e).len() {
            } else {
                assert(t[i] == s.last());
            }
        }
    }
}

proof fn lemma_insert_reg_sorted(
    s: Seq<(int, int, Seq<char>, Seq<Seq<u8>>)>,
    e: (int, int, Seq<char>, Seq<Seq<u8>>),
)
    requires
        sorted_asc(s),
    ensures
        sorted_asc(insert_reg(s, e)),
    decreases s.len(),
{
    broadcast use vstd::seq_lib::group_to_multiset_ensures;

    if s.len() == 0 {
    } else if reg_before_eq(s.last(), e) {
        let t = s.push(e);
        assert forall|i: int, j: int| 0 <= i < j < t.len() implies (#[trigger] t[i]).0 <= (
        #[trigger] t[j]).0 by {
            if j < s.len() {
            } else {
                assert(t[j] == e);
                if i < s.len() {
                    assert(s[i].0 <= s.last().0);
                    assert(s.last().0 <= e.0);
                }
            }
        }
    } else {
        let dl = s.drop_last();
        assert(sorted_asc(dl)) by {
            assert(forall|i: int| 0 <= i < dl.len() ==> #[trigger] dl[i] == s[i]);
        }
        lemma_insert_reg_sorted(dl, e);
        lemma_insert_reg_multiset(dl, e);
        let t = insert_reg(dl, e);
        let u = t.push(s.last());
        assert forall|i: int, j: int| 0 <= i < j < u.len() implies (#[trigger] u[i]).0 <= (
        #[trigger] u[j]).0 by {
            if j < t.len() {
            } else {
                assert(u[j] == s.last());
                assert(t.to_multiset().contains(t[i]));
                assert(dl.push(e).to_multiset().contains(t[i]));
                assert(dl.push(e).contains(t[i]));
                if exists|k: int| 0 <= k < dl.len() && dl[k] == t[i] {
                    let k = choose|k: int| 0 <= k < dl.len() && dl[k] == t[i];
                    assert(s[k].0 <= s[s.len() - 1].0);
                } else {
                    assert(t[i] == e);
                    assert(!reg_before_eq(s.last(), e));
                    assert(e.0 <= s.last().0);
                }
            }
        }
    }
}

proof fn lemma_insert_reg_multiset(
    s: Seq<(int, int, Seq<char>, Seq<Seq<u8>>)>,
    e: (int, int, Seq<char>, Seq<Seq<u8>>),
)
    ensures
        insert_reg(s, e).to_multiset() == s.push(e).to_multiset(),
    decreases s.len(),
{
    broadcast use vstd::seq_lib::group_to_multiset_ensures;

    if s.len() == 0 {
    } else if reg_before_eq(s.last(), e) {
    } else {
        lemma_insert_reg_multiset(s.drop_last(), e);
        assert(s.drop_last().push(e).push(s.last()).to_multiset() =~= s.push(e).to_multiset())
            by {
            assert(s.drop_last().push(e).push(s.last()).to_multiset()
                =~= s.drop_last().to_multiset().insert(e).insert(s.last()));
            assert(s.push(e).to_multiset() =~= s.to_multiset().insert(e));
            assert(s =~= s.drop_last().push(s.last()));
            assert(s.drop_last().push(s.last()).to_multiset()
                =~= s.drop_last().to_multiset().insert(s.last()));
        }
    }
}

proof fn lemma_sort_reg_props(rs: Seq<(int, int, Seq<char>, Seq<Seq<u8>>)>, n: int)
    requires
        regions_in_range(rs, n),
    ensures
        sorted_asc(sort_reg(rs)),
        regions_in_range(sort_reg(rs), n),
    decreases rs.len(),
{
    if rs.len() > 0 {
        let dl = rs.drop_last();
        assert(regions_in_range(dl, n)) by {
            assert(forall|i: int| 0 <= i < dl.len() ==> #[trigger] dl[i] == rs[i]);
        }
        lemma_sort_reg_props(dl, n);
        lemma_insert_reg_sorted(sort_reg(dl), rs.last());
        lemma_insert_reg_elemwise(sort_reg(dl), rs.last(), n);
    }
}

proof fn lemma_select_rec_props(
    rs: Seq<(int, int, Seq<char>, Seq<Seq<u8>>)>,
    last: (int, int, Seq<char>, Seq<Seq<u8>>),
    n: int,
)
    requires
        sorted_asc(rs),
        regions_in_range(rs, n),
    ensures
        match select_rec(rs, last) {
            Option::Some(out) => {
                &&& forall|i: int| 0 <= i < out.len() ==> (#[trigger] out[i]).0 >= last.1
                &&& regions_disjoint(out)
                &&& regions_in_range(out, n)
                &&& sorted_asc(out)
            },
            Option::None => true,
        },
    decreases rs.len(),
{
    if rs.len() == 0 {
    } else if rs[0].0 >= last.1 {
        assert(sorted_asc(rs.skip(1)) && regions_in_range(rs.skip(1), n)) by {
            assert(forall|i: int| 0 <= i < rs.skip(1).len() ==> #[trigger] rs.skip(1)[i] == rs[i
                + 1]);
        }
        lemma_select_rec_props(rs.skip(1), rs[0], n);
        match select_rec(rs.skip(1), rs[0]) {
            Option::Some(t) => {
                let out = seq![rs[0]] + t;
                assert forall|i: int| 0 <= i < out.len() implies (#[trigger] out[i]).0
                    >= last.1 by {
                    if i == 0 {
                    } else {
                        assert(out[i] == t[i - 1]);
                        assert(t[i - 1].0 >= rs[0].1);
                        assert(rs[0].1 > rs[0].0);
                    }
                }
                assert(regions_disjoint(out)) by {
                    assert forall|i: int, j: int| 0 <= i < j < out.len() implies (
                    #[trigger] out[i]).1 <= (#[trigger] out[j]).0 || out[j].1 <= out[i].0 by {
                        if i == 0 {
                            assert(out[j] == t[j - 1]);
                            assert(t[j - 1].0 >= rs[0].1);
                        } else {
                            assert(out[i] == t[i - 1] && out[j] == t[j - 1]);
                        }
                    }
                }
                assert(regions_in_range(out, n)) by {
                    assert forall|i: int| 0 <= i < out.len() implies keep_region(
                        #[trigger] out[i],
                        n,
                    ) by {
                        if i == 0 {
                        } else {
                            assert(out[i] == t[i - 1]);
                        }
                    }
                }
                assert(sorted_asc(out)) by {
                    assert forall|i: int, j: int| 0 <= i < j < out.len() implies (
                    #[trigger] out[i]).0 <= (#[trigger] out[j]).0 by {
                        if i == 0 {
                            assert(out[j] == t[j - 1]);
                            assert(t[j - 1].0 >= rs[0].1 > rs[0].0);
                        } else {
                            assert(out[i] == t[i - 1] && out[j] == t[j - 1]);
                        }
                    }
                }
            },
            Option::None => {},
        }
    } else if rs[0].1 <= last.1 {
        assert(sorted_asc(rs.skip(1)) && regions_in_range(rs.skip(1), n)) by {
            assert(forall|i: int| 0 <= i < rs.skip(1).len() ==> #[trigger] rs.skip(1)[i] == rs[i
                + 1]);
        }
        lemma_select_rec_props(rs.skip(1), last, n);
    } else {
    }
}

/// What normalization guarantees of its output: every region kept is
/// non-empty and in range, no two overlap, and they are ordered by
/// descending start byte.
pub proof fn lemma_normalized_props(raw: Seq<(int, int, Seq<char>, Seq<Seq<u8>>)>, n: int)
    ensures
        match normalized_spec(raw, n) {
            Option::Some(out) => {
                &&& regions_in_range(out, n)
                &&& regions_disjoint(out)
                &&& forall|i: int, j: int|
                    0 <= i < j < out.len() ==> (#[trigger] out[i]).0 >= (#[trigger] out[j]).0
            },
            Option::None => true,
        },
{
    let f = filter_regions_spec(raw, n);
    lemma_filter_regions_props(raw, n);
    lemma_sort_reg_props(f, n);
    let s = sort_reg(f);
    if s.len() > 0 {
        assert(sorted_asc(s.skip(1)) && regions_in_range(s.skip(1), n)) by {
            assert(forall|i: int| 0 <= i < s.skip(1).len() ==> #[trigger] s.skip(1)[i] == s[i
                + 1]);
        }
        lemma_select_rec_props(s.skip(1), s[0], n);
        match select_rec(s.skip(1), s[0]) {
            Option::Some(t) => {
                let sel = seq![s[0]] + t;
                assert(regions_in_range(sel, n)) by {
                    assert forall|i: int| 0 <= i < sel.len() implies keep_region(
                        #[trigger] sel[i],
                        n,
                    ) by {
                        if i > 0 {
                            assert(sel[i] == t[i - 1]);
                        }
                    }
                }
                assert(regions_disjoint(sel) && sorted_asc(sel)) by {
                    assert forall|i: int, j: int| 0 <= i < j < sel.len() implies ((
                    #[trigger] sel[i]).1 <= (#[trigger] sel[j]).0 || sel[j].1 <= sel[i].0) && sel[
                        i].0 <= sel[j].0 by {
                        if i == 0 {
                            assert(sel[j] == t[j - 1]);
                            assert(t[j - 1].0 >= s[0].1 > s[0].0);
                        } else {
                            assert(sel[i] == t[i - 1] && sel[j] == t[j - 1]);
                        }
                    }
                }
                let out = sel.reverse();
                assert forall|i: int| 0 <= i < out.len() implies keep_region(
                    #[trigger] out[i],
                    n,
                ) by {
                    assert(out[i] == sel[out.len() - 1 - i]);
                }
                assert forall|i: int, j: int| 0 <= i < j < out.len() implies ((
                #[trigger] out[i]).1 <= (#[trigger] out[j]).0 || out[j].1 <= out[i].0) && out[i].0
                    >= out[j].0 by {
                    assert(out[i] == sel[out.len() - 1 - i]);
                    assert(out[j] == sel[out.len() - 1 - j]);
                }
            },
            Option::None => {},
        }
    } else {
        assert(normalized_spec(raw, n) == Option::Some(
            Seq::<(int, int, Seq<char>, Seq<Seq<u8>>)>::empty().reverse(),
        ));
        assert(Seq::<(int, int, Seq<char>, Seq<Seq<u8>>)>::empty().reverse() =~= Seq::<
            (int, int, Seq<char>, Seq<Seq<u8>>),
        >::empty());
    }
}

proof fn lemma_insert_reg_at(
    s: Seq<(int, int, Seq<char>, Seq<Seq<u8>>)>,
    e: (int, int, Seq<char>, Seq<Seq<u8>>),
    j: int,
)
    requires
        0 <= j <= s.len(),
        forall|k: int| j <= k < s.len() ==> !reg_before_eq(#[trigger] s[k], e),
        j > 0 ==> reg_before_eq(s[j - 1], e),
    ensures
        insert_reg(s, e) == s.take(j) + seq![e] + s.skip(j),
    decreases s.len(),
{
    if s.len() == 0 {
        assert(insert_reg(s, e) =~= s.take(j) + seq![e] + s.skip(j));
    } else if reg_before_eq(s.last(), e) {
        assert(j == s.len());
        assert(s.take(j) == s);
        assert(insert_reg(s, e) =~= s.take(j) + seq![e] + s.skip(j));
    } else {
        assert(j < s.len());
        lemma_insert_reg_at(s.drop_last(), e, j);
        assert(s.drop_last().take(j) == s.take(j));
        assert(insert_reg(s, e) =~= s.take(j) + seq![e] + s.skip(j));
    }
}

#[verifier::loop_isolation(false)]
fn insert_region_sorted(sorted: &mut Vec<InjectedRegion>, e: InjectedRegion)
    ensures
        regions_view(final (sorted)@) == insert_reg(
            regions_view(old(sorted)@),
            region_model(e),
        ),
{
    let ghost s = regions_view(sorted@);
    let ghost em = region_model(e);
    let mut j: usize = sorted.len();
    while j > 0 && !(sorted[j - 1].range.start_byte < e.range.start_byte || (sorted[j
        - 1].range.start_byte == e.range.start_byte && sorted[j - 1].range.end_byte
        >= e.range.end_byte))
        invariant
            j <= sorted@.len(),
            regions_view(sorted@) == s,
            forall|k: int| j <= k < s.len() ==> !reg_before_eq(#[trigger] s[k], em),
        decreases j,
    {
        assert(s[j - 1] == region_model(sorted@[j - 1]));
        j -= 1;
    }
    proof {
        if j > 0 {
            assert(s[j - 1] == region_model(sorted@[j - 1]));
        }
        lemma_insert_reg_at(s, em, j as int);
    }
    sorted.insert(j, e);
    proof {
        assert(regions_view(sorted@) =~= s.take(j as int) + seq![em] + s.skip(j as int)) by {
            assert(forall|k: int|
                0 <= k < sorted@.len() ==> regions_view(sorted@)[k] == region_model(
                    #[trigger] sorted@[k],
                ));
        }
    }
}

/// Normalizes a raw extraction against a buffer of length `source_len`:
/// drops empty and out-of-range regions, reconciles overlaps by keeping the
/// outermost region (ties broken by earliest start), and returns the
/// survivors ordered by descending start byte. Fails when two regions
/// partially overlap, which no consistent extraction produces.
#[verifier::loop_isolation(false)]
pub fn normalize_regions(raw: Vec<InjectedRegion>, source_len: usize) -> (r: Result<
    Vec<InjectedRegion>,
    FormatError,
>)
    ensures
        match normalized_spec(regions_view(raw@), source_len as int) {
            Option::Some(out) => r matches Ok(v) && regions_view(v@) == out,
            Option::None => r matches Err(e) && e is OverlapError,
        },
{
    let ghost raw_m = regions_view(raw@);
    let ghost n = source_len as int;

    // range filter
    let mut work = raw;
    let mut kept: Vec<InjectedRegion> = Vec::new();
    let ghost orig = regions_view(work@);
    proof {
        assert(orig.skip(0) =~= orig);
        assert(regions_view(kept@) =~= Seq::<(int, int, Seq<char>, Seq<Seq<u8>>)>::empty());
    }
    while work.len() > 0
        invariant
            work@.len() <= orig.len(),
            regions_view(work@) == orig.skip(orig.len() - work@.len()),
            filter_regions_spec(orig, n) == regions_view(kept@) + filter_regions_spec(
                regions_view(work@),
                n,
            ),
        decreases work@.len(),
    {
        let ghost u = regions_view(work@);
        let ghost oldvecs = work@;
        let e = work.remove(0);
        proof {
            assert(u[0] == region_model(oldvecs[0]));
            assert(regions_view(work@) =~= u.skip(1)) by {
                assert(work@ == oldvecs.remove(0));
                assert(forall|i: int| 0 <= i < work@.len() ==> work@[i] == oldvecs[i + 1]);
                assert(forall|i: int|
                    0 <= i < work@.len() ==> regions_view(work@)[i] == region_model(
                        #[trigger] work@[i],
                    ));
                assert(forall|i: int|
                    0 <= i < oldvecs.len() ==> u[i] == region_model(#[trigger] oldvecs[i]));
            }
            assert(regions_view(work@) =~= orig.skip(orig.len() - work@.len()));
        }
        let keep = e.range.start_byte < e.range.end_byte && e.range.end_byte <= source_len;
        proof {
            assert(keep == keep_region(u[0], n));
        }
        if keep {
            let ghost kv = regions_view(kept@);
            let ghost em = region_model(e);
            kept.push(e);
            proof {
                assert(regions_view(kept@) =~= kv + seq![em]) by {
                    assert(forall|k: int|
                        0 <= k < kept@.len() ==> regions_view(kept@)[k] == region_model(
                            #[trigger] kept@[k],
                        ));
                }
            }
        } else {
            proof {
                assert(Seq::<(int, int, Seq<char>, Seq<Seq<u8>>)>::empty() + filter_regions_spec(
                    u.skip(1),
                    n,
                ) =~= filter_regions_spec(u.skip(1), n));
            }
        }
    }
    proof {
        assert(regions_view(work@).len() == 0);
        assert(filter_regions_spec(regions_view(work@), n) =~= Seq::<
            (int, int, Seq<char>, Seq<Seq<u8>>),
        >::empty());
        assert(regions_view(kept@) == filter_regions_spec(orig, n));
    }

    // stable sort: ascending start, outermost first on ties
    let ghost fm = regions_view(kept@);
    let mut work2 = kept;
    let mut sorted: Vec<InjectedRegion> = Vec::new();
    proof {
        assert(fm.skip(0) =~= fm);
        assert(regions_view(sorted@) =~= Seq::<(int, int, Seq<char>, Seq<Seq<u8>>)>::empty());
        assert(fm.take(0) =~= Seq::<(int, int, Seq<char>, Seq<Seq<u8>>)>::empty());
    }
    while work2.len() > 0
        invariant
            work2@.len() <= fm.len(),
            regions_view(work2@) == fm.skip(fm.len() - work2@.len()),
            regions_view(sorted@) == sort_reg(fm.take(fm.len() - work2@.len())),
        decreases work2@.len(),
    {
        let ghost oldm = regions_view(work2@);
        let ghost oldvecs = work2@;
        let ghost done = fm.take(fm.len() - oldm.len());
        let e = work2.remove(0);
        proof {
            assert(oldm == fm.skip(done.len() as int));
            assert(oldm[0] == region_model(oldvecs[0]));
            assert(oldm[0] == fm[done.len() as int]);
            assert(regions_view(work2@) =~= fm.skip(done.len() + 1 as int)) by {
                assert(work2@ == oldvecs.remove(0));
                assert(forall|i: int| 0 <= i < work2@.len() ==> work2@[i] == oldvecs[i + 1]);
                assert(forall|i: int|
                    0 <= i < work2@.len() ==> regions_view(work2@)[i] == region_model(
                        #[trigger] work2@[i],
                    ));
                assert(forall|i: int|
                    0 <= i < oldvecs.len() ==> oldm[i] == region_model(#[trigger] oldvecs[i]));
            }
            let done2 = fm.take(done.len() + 1 as int);
            assert(done2 =~= done.push(region_model(e)));
            assert(done2.drop_last() =~= done);
            assert(done2.last() == region_model(e));
        }
        insert_region_sorted(&mut sorted, e);
    }
    proof {
        assert(fm.take(fm.len() as int) =~= fm);
        assert(regions_view(sorted@) == sort_reg(fm));
    }

    // outermost-wins selection
    let ghost sm = regions_view(sorted@);
    let mut work3 = sorted;
    let mut out: Vec<InjectedRegion> = Vec::new();
    proof {
        assert(sm.skip(0) =~= sm);
    }
    while work3.len() > 0
        invariant
            work3@.len() <= sm.len(),
            regions_view(work3@) == sm.skip(sm.len() - work3@.len()),
            out@.len() == 0 ==> work3@.len() == sm.len(),
            out@.len() > 0 ==> match select_rec(
                regions_view(work3@),
                regions_view(out@).last(),
            ) {
                Option::Some(t) => select_spec(sm) == Option::Some(regions_view(out@) + t),
                Option::None => select_spec(sm) is None,
            },
        decreases work3@.len(),
    {
        let ghost u = regions_view(work3@);
        let ghost oldvecs = work3@;
        let e = work3.remove(0);
        proof {
            assert(u[0] == region_model(oldvecs[0]));
            assert(regions_view(work3@) =~= u.skip(1)) by {
                assert(work3@ == oldvecs.remove(0));
                assert(forall|i: int| 0 <= i < work3@.len() ==> work3@[i] == oldvecs[i + 1]);
                assert(forall|i: int|
                    0 <= i < work3@.len() ==> regions_view(work3@)[i] == region_model(
                        #[trigger] work3@[i],
                    ));
                assert(forall|i: int|
                    0 <= i < oldvecs.len() ==> u[i] == region_model(#[trigger] oldvecs[i]));
            }
            assert(regions_view(work3@) =~= sm.skip(sm.len() - work3@.len()));
        }
        if out.len() == 0 {
            let ghost em = region_model(e);
            out.push(e);
            proof {
                assert(regions_view(out@) =~= seq![em]) by {
                    assert(forall|k: int|
                        0 <= k < out@.len() ==> regions_view(out@)[k] == region_model(
                            #[trigger] out@[k],
                        ));
                }
                assert(u == sm);
                assert(u[0] == em);
                assert(u.skip(1) == regions_view(work3@));
                match select_rec(u.skip(1), em) {
                    Option::Some(t) => {
                        assert(select_spec(sm) == Option::Some(seq![em] + t));
                    },
                    Option::None => {},
                }
            }
        } else {
            let last_start = out[out.len() - 1].range.start_byte;
            let last_end = out[out.len() - 1].range.end_byte;
            let ghost lastm = regions_view(out@).last();
            proof {
                assert(lastm == region_model(out@[out@.len() - 1]));
            }
            if e.range.start_byte >= last_end {
                let ghost ov = regions_view(out@);
                let ghost em = region_model(e);
                out.push(e);
                proof {
                    assert(regions_view(out@) =~= ov.push(em)) by {
                        assert(forall|k: int|
                            0 <= k < out@.len() ==> regions_view(out@)[k] == region_model(
                                #[trigger] out@[k],
                            ));
                    }
                    assert(u[0] == em);
                    assert(em.0 >= lastm.1);
                    assert(select_rec(u, lastm) == match select_rec(u.skip(1), em) {
                        Option::Some(t) => Option::Some(seq![em] + t),
                        Option::None => Option::<Seq<(int, int, Seq<char>, Seq<Seq<u8>>)>>::None,
                    });
                    match select_rec(u.skip(1), em) {
                        Option::Some(t) => {
                            assert(ov + (seq![em] + t) =~= ov.push(em) + t);
                        },
                        Option::None => {},
                    }
                }
            } else if e.range.end_byte <= last_end {
                proof {
                    assert(u[0] == region_model(e));
                    assert(!(u[0].0 >= lastm.1) && u[0].1 <= lastm.1);
                    assert(select_rec(u, lastm) == select_rec(u.skip(1), lastm));
                }
            } else {
                proof {
                    assert(u[0] == region_model(e));
                    assert(!(u[0].0 >= lastm.1) && !(u[0].1 <= lastm.1));
                    assert(select_rec(u, lastm) is None);
                }
                return Err(FormatError::OverlapError);
            }
        }
    }
    proof {
        let empty_m = Seq::<(int, int, Seq<char>, Seq<Seq<u8>>)>::empty();
        assert(regions_view(work3@) =~= empty_m);
        if out@.len() == 0 {
            assert(sm.len() == 0);
            assert(select_spec(sm) == Option::Some(empty_m));
            assert(regions_view(out@) =~= empty_m);
        } else {
            assert(select_rec(regions_view(work3@), regions_view(out@).last())
                == Option::Some(empty_m));
            assert(regions_view(out@) + empty_m =~= regions_view(out@));
        }
        assert(select_spec(sm) == Option::Some(regions_view(out@)));
    }

    // reverse to descending start order
    let mut work4 = out;
    let ghost om = regions_view(work4@);
    let mut rev: Vec<InjectedRegion> = Vec::new();
    while work4.len() > 0
        invariant
            work4@.len() <= om.len(),
            regions_view(work4@) == om.take(work4@.len() as int),
            regions_view(rev@) == om.skip(work4@.len() as int).reverse(),
        decreases work4@.len(),
    {
        let ghost u = regions_view(work4@);
        let ghost rv = regions_view(rev@);
        let e = match work4.pop() {
            Option::Some(x) => x,
            Option::None => {
                proof {
                    assert(false);
                }
                return Err(FormatError::OverlapError);
            },
        };
        let ghost em = region_model(e);
        rev.push(e);
        proof {
            assert(em == u.last());
            assert(regions_view(work4@) =~= om.take(work4@.len() as int)) by {
                assert(forall|i: int|
                    0 <= i < work4@.len() ==> regions_view(work4@)[i] == region_model(
                        #[trigger] work4@[i],
                    ));
                assert(forall|i: int|
                    0 <= i < u.len() ==> u[i] == om.take(u.len() as int)[i]);
            }
            assert(regions_view(rev@) =~= om.skip(work4@.len() as int).reverse()) by {
                assert(forall|i: int|
                    0 <= i < rev@.len() ==> regions_view(rev@)[i] == region_model(
                        #[trigger] rev@[i],
                    ));
                assert(regions_view(rev@) =~= rv.push(em));
                let tail = om.skip(work4@.len() as int);
                assert(forall|i: int| 0 <= i < tail.len() ==> tail.reverse()[i] == tail[tail.len()
                    - 1 - i]);
            }
        }
    }
    proof {
        assert(om.take(0) =~= Seq::<(int, int, Seq<char>, Seq<Seq<u8>>)>::empty());
        assert(om.skip(0) =~= om);
        assert(regions_view(rev@) == om.reverse());
        assert(normalized_spec(raw_m, n) == Option::Some(om.reverse()));
    }
    Ok(rev)
}

} // verus!
