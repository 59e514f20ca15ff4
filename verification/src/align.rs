use vstd::prelude::*;
use crate::edits::{
    apply_edits, apply_edits_model, edit_model, edits_disjoint, edits_in_range, edits_view,
    sort_desc, Edit,
};
use crate::plugin::FormatError;
use crate::textops::{line_start_of, spaces, NL};

verus! {

/// Position of one comment in the source: byte offset, row, and byte column.
#[derive(Debug, Clone, Copy)]
pub struct CommentInfo {
    pub start_byte: usize,
    pub start_row: usize,
    pub start_col: usize,
}

/// Position of a named sibling of a comment node.
#[derive(Debug, Clone, Copy)]
pub struct SiblingInfo {
    pub start_byte: usize,
    pub end_byte: usize,
    pub start_row: usize,
    pub start_col: usize,
}

/// A comment node read off the parse tree, with its nearest named siblings.
#[derive(Debug, Clone, Copy)]
pub struct CommentNode {
    pub start_byte: usize,
    pub end_byte: usize,
    pub start_row: usize,
    pub start_col: usize,
    pub prev: Option<SiblingInfo>,
    pub next: Option<SiblingInfo>,
}

impl CommentInfo {
    /// The position part of a comment node.
    pub fn from_node(node: &CommentNode) -> (r: CommentInfo)
        ensures
            r.start_byte == node.start_byte,
            r.start_row == node.start_row,
            r.start_col == node.start_col,
    {
        CommentInfo {
            start_byte: node.start_byte,
            start_row: node.start_row,
            start_col: node.start_col,
        }
    }
}

/// The comment at `start` begins with two semicolons.
pub open spec fn is_double_spec(src: Seq<u8>, start: int) -> bool {
    &&& start + 2 <= src.len()
    &&& src[start] == 59u8
    &&& src[start + 1] == 59u8
}

/// Whether the comment's text begins with `;;`.
pub fn is_double_comment(source: &Vec<u8>, comment: &CommentInfo) -> (r: bool)
    ensures
        r == is_double_spec(source@, comment.start_byte as int),
{
    let start = comment.start_byte;
    if start <= source.len() && source.len() - start >= 2 {
        source[start] == 59 && source[start + 1] == 59
    } else {
        false
    }
}

/// Start of the line holding byte `pos`: walks back to the byte just after
/// the previous line feed.
#[verifier::loop_isolation(false)]
pub fn find_line_start(source: &Vec<u8>, pos: usize) -> (r: usize)
    requires
        pos <= source@.len(),
    ensures
        r as int == line_start_of(source@, pos as int),
{
    let mut start = pos;
    while start > 0 && source[start - 1] != NL
        invariant
            start <= pos,
            line_start_of(source@, pos as int) == line_start_of(source@, start as int),
        decreases start,
    {
        start -= 1;
    }
    start
}

/// Column of the next named sibling, when it sits on a later row.
pub open spec fn next_col_spec(node: CommentNode) -> Option<usize> {
    match node.next {
        Option::Some(s) => if s.start_row == node.start_row {
            Option::None
        } else {
            Option::Some(s.start_col)
        },
        Option::None => Option::None,
    }
}

/// The column of the comment's next named sibling, unless that sibling sits
/// on the same row.
pub fn get_next_named_sibling_col(node: &CommentNode) -> (r: Option<usize>)
    ensures
        r == next_col_spec(*node),
{
    match node.next {
        Option::Some(s) => {
            if s.start_row == node.start_row {
                Option::None
            } else {
                Option::Some(s.start_col)
            }
        },
        Option::None => Option::None,
    }
}

/// The row of the comment's previous named sibling, if it has one.
pub fn get_prev_named_sibling_row(node: &CommentNode) -> (r: Option<usize>)
    ensures
        r == match node.prev {
            Option::Some(s) => Option::Some(s.start_row),
            Option::None => Option::<usize>::None,
        },
{
    match node.prev {
        Option::Some(s) => Option::Some(s.start_row),
        Option::None => Option::None,
    }
}

/// Whether a sibling record and a comment node denote the same tree node,
/// compared by byte range.
pub fn is_same_node(a: &SiblingInfo, b: &CommentNode) -> (r: bool)
    ensures
        r == (a.start_byte == b.start_byte && a.end_byte == b.end_byte),
{
    a.start_byte == b.start_byte && a.end_byte == b.end_byte
}

/// `cur` belongs to the same comment group as `prev`: one of `cur`'s named
/// siblings is `prev` itself.
pub open spec fn related(prev: CommentNode, cur: CommentNode) -> bool {
    ||| match cur.prev {
        Option::Some(s) => s.start_byte == prev.start_byte && s.end_byte == prev.end_byte,
        Option::None => false,
    }
    ||| match cur.next {
        Option::Some(s) => s.start_byte == prev.start_byte && s.end_byte == prev.end_byte,
        Option::None => false,
    }
}

/// Grouping of a comment list into runs of sibling-related comments.
pub open spec fn groups_rec(rest: Seq<CommentNode>, cur: Seq<CommentNode>) -> Seq<
    Seq<CommentNode>,
>
    decreases rest.len(),
{
    if rest.len() == 0 {
        if cur.len() == 0 {
            Seq::empty()
        } else {
            seq![cur]
        }
    } else if cur.len() == 0 {
        groups_rec(rest.skip(1), seq![rest[0]])
    } else if related(cur.last(), rest[0]) {
        groups_rec(rest.skip(1), cur.push(rest[0]))
    } else {
        seq![cur] + groups_rec(rest.skip(1), seq![rest[0]])
    }
}

/// The comment groups of a list.
pub open spec fn groups_spec(comments: Seq<CommentNode>) -> Seq<Seq<CommentNode>> {
    groups_rec(comments, Seq::empty())
}

/// Spec view of a list of comment groups.
pub open spec fn groups_view(g: Seq<Vec<CommentNode>>) -> Seq<Seq<CommentNode>> {
    g.map_values(|v: Vec<CommentNode>| v@)
}

proof fn lemma_groups_rec_elems(rest: Seq<CommentNode>, cur: Seq<CommentNode>)
    ensures
        forall|gi: int, i: int|
            0 <= gi < groups_rec(rest, cur).len() && 0 <= i < groups_rec(rest, cur)[gi].len()
                ==> rest.contains(#[trigger] groups_rec(rest, cur)[gi][i]) || cur.contains(
                groups_rec(rest, cur)[gi][i],
            ),
    decreases rest.len(),
{
    let g = groups_rec(rest, cur);
    if rest.len() == 0 {
        assert forall|gi: int, i: int|
            0 <= gi < g.len() && 0 <= i < g[gi].len() implies rest.contains(
            #[trigger] g[gi][i],
        ) || cur.contains(g[gi][i]) by {
            assert(g[gi] == cur);
        }
    } else if cur.len() == 0 {
        lemma_groups_rec_elems(rest.skip(1), seq![rest[0]]);
        let h = groups_rec(rest.skip(1), seq![rest[0]]);
        assert(g == h);
        assert forall|gi: int, i: int|
            0 <= gi < g.len() && 0 <= i < g[gi].len() implies rest.contains(
            #[trigger] g[gi][i],
        ) || cur.contains(g[gi][i]) by {
            let e = g[gi][i];
            assert(h[gi][i] == e);
            if rest.skip(1).contains(e) {
                let k = choose|k: int| 0 <= k < rest.skip(1).len() && rest.skip(1)[k] == e;
                assert(rest[k + 1] == e);
            } else {
                assert(seq![rest[0]].contains(e));
                assert(e == rest[0]);
            }
        }
    } else if related(cur.last(), rest[0]) {
        lemma_groups_rec_elems(rest.skip(1), cur.push(rest[0]));
        let h = groups_rec(rest.skip(1), cur.push(rest[0]));
        assert(g == h);
        assert forall|gi: int, i: int|
            0 <= gi < g.len() && 0 <= i < g[gi].len() implies rest.contains(
            #[trigger] g[gi][i],
        ) || cur.contains(g[gi][i]) by {
            let e = g[gi][i];
            assert(h[gi][i] == e);
            if rest.skip(1).contains(e) {
                let k = choose|k: int| 0 <= k < rest.skip(1).len() && rest.skip(1)[k] == e;
                assert(rest[k + 1] == e);
            } else {
                assert(cur.push(rest[0]).contains(e));
                let k = choose|k: int| 0 <= k < cur.push(rest[0]).len() && cur.push(rest[0])[k]
                    == e;
                if k < cur.len() {
                    assert(cur[k] == e);
                } else {
                    assert(e == rest[0]);
                }
            }
        }
    } else {
        lemma_groups_rec_elems(rest.skip(1), seq![rest[0]]);
        assert forall|gi: int, i: int|
            0 <= gi < g.len() && 0 <= i < g[gi].len() implies rest.contains(
            #[trigger] g[gi][i],
        ) || cur.contains(g[gi][i]) by {
            let e = g[gi][i];
            if gi == 0 {
                assert(g[0] == cur);
            } else {
                let h = groups_rec(rest.skip(1), seq![rest[0]]);
                assert(g[gi] == h[gi - 1]);
                assert(h[gi - 1][i] == e);
                if rest.skip(1).contains(e) {
                    let k = choose|k: int| 0 <= k < rest.skip(1).len() && rest.skip(1)[k] == e;
                    assert(rest[k + 1] == e);
                } else {
                    assert(seq![rest[0]].contains(e));
                    assert(e == rest[0]);
                }
            }
        }
    }
}

/// Groups a list of comments into runs whose members are named siblings of
/// one another; order within and across groups follows the input.
#[verifier::loop_isolation(false)]
pub fn group_related_comments(comments: &Vec<CommentNode>) -> (r: Vec<Vec<CommentNode>>)
    ensures
        groups_view(r@) == groups_spec(comments@),
{
    let ghost t = comments@;
    let mut groups: Vec<Vec<CommentNode>> = Vec::new();
    let mut current: Vec<CommentNode> = Vec::new();
    let mut i: usize = 0;
    proof {
        assert(t.skip(0) =~= t);
        assert(groups_view(groups@) =~= Seq::<Seq<CommentNode>>::empty());
    }
    while i < comments.len()
        invariant
            i <= t.len(),
            groups_spec(t) == groups_view(groups@) + groups_rec(t.skip(i as int), current@),
        decreases t.len() - i,
    {
        let ghost u = t.skip(i as int);
        let c = comments[i];
        assert(u[0] == c);
        if current.len() == 0 {
            current.push(c);
            proof {
                assert(current@ =~= seq![c]);
                assert(u.skip(1) =~= t.skip(i + 1));
            }
        } else {
            let prev = current[current.len() - 1];
            assert(prev == current@.last());
            let prev_same = match c.prev {
                Option::Some(s) => is_same_node(&s, &CommentNode { ..prev }),
                Option::None => false,
            };
            let next_same = match c.next {
                Option::Some(s) => is_same_node(&s, &CommentNode { ..prev }),
                Option::None => false,
            };
            if prev_same || next_same {
                proof {
                    assert(related(current@.last(), u[0]));
                }
                current.push(c);
                proof {
                    assert(u.skip(1) =~= t.skip(i + 1));
                }
            } else {
                proof {
                    assert(!related(current@.last(), u[0]));
                }
                let ghost gv = groups_view(groups@);
                let ghost cv = current@;
                groups.push(current);
                current = Vec::new();
                current.push(c);
                proof {
                    assert(groups_view(groups@) =~= gv.push(cv)) by {
                        assert(forall|k: int|
                            0 <= k < groups@.len() ==> groups_view(groups@)[k] == (
                            #[trigger] groups@[k])@);
                    }
                    assert(current@ =~= seq![c]);
                    assert(u.skip(1) =~= t.skip(i + 1));
                    assert(gv.push(cv) + groups_rec(t.skip(i + 1), seq![c]) =~= gv + (seq![cv]
                        + groups_rec(t.skip(i + 1), seq![c])));
                }
            }
        }
        i += 1;
    }
    proof {
        assert(t.skip(t.len() as int) =~= Seq::<CommentNode>::empty());
    }
    if current.len() > 0 {
        let ghost gv = groups_view(groups@);
        let ghost cv = current@;
        groups.push(current);
        proof {
            assert(groups_view(groups@) =~= gv.push(cv)) by {
                assert(forall|k: int|
                    0 <= k < groups@.len() ==> groups_view(groups@)[k] == (
                    #[trigger] groups@[k])@);
            }
            assert(gv.push(cv) =~= gv + seq![cv]);
        }
    } else {
        proof {
            assert(groups_view(groups@) + Seq::<Seq<CommentNode>>::empty() =~= groups_view(
                groups@,
            ));
        }
    }
    groups
}

/// The edits that bring one comment group to `target` column: for each
/// comment not already there, its line's leading bytes up to the comment are
/// replaced by `target` spaces.
pub open spec fn align_group_spec(src: Seq<u8>, g: Seq<CommentInfo>, target: int) -> Seq<
    (int, int, Seq<u8>),
>
    decreases g.len(),
{
    if g.len() == 0 {
        Seq::empty()
    } else {
        let head: Seq<(int, int, Seq<u8>)> = if g[0].start_col != target {
            seq![
                (
                    line_start_of(src, g[0].start_byte as int),
                    g[0].start_byte as int,
                    spaces(target as nat),
                ),
            ]
        } else {
            Seq::empty()
        };
        head + align_group_spec(src, g.skip(1), target)
    }
}

/// Builds the indentation edits that align every comment of `group` to
/// `target_col`; comments already at that column produce no edit.
#[verifier::loop_isolation(false)]
pub fn align_comment_group(source: &Vec<u8>, group: &Vec<CommentInfo>, target_col: usize) -> (r:
    Vec<Edit>)
    requires
        forall|k: int| 0 <= k < group@.len() ==> (#[trigger] group@[k]).start_byte <= source@.len(),
    ensures
        edits_view(r@) == align_group_spec(source@, group@, target_col as int),
{
    let ghost g = group@;
    let mut edits: Vec<Edit> = Vec::new();
    let mut i: usize = 0;
    proof {
        assert(g.skip(0) =~= g);
        assert(edits_view(edits@) =~= Seq::<(int, int, Seq<u8>)>::empty());
    }
    while i < group.len()
        invariant
            i <= g.len(),
            align_group_spec(source@, g, target_col as int) == edits_view(edits@)
                + align_group_spec(source@, g.skip(i as int), target_col as int),
        decreases g.len() - i,
    {
        let ghost u = g.skip(i as int);
        let c = group[i];
        assert(u[0] == c);
        if c.start_col != target_col {
            let line_start = find_line_start(source, c.start_byte);
            let replacement: Vec<u8> = vec![32u8; target_col];
            proof {
                assert(replacement@ =~= spaces(target_col as nat));
            }
            let ghost ev = edits_view(edits@);
            let e = Edit { start_byte: line_start, end_byte: c.start_byte, replacement };
            let ghost em = edit_model(e);
            edits.push(e);
            proof {
                assert(edits_view(edits@) =~= ev.push(em)) by {
                    assert(forall|k: int|
                        0 <= k < edits@.len() ==> edits_view(edits@)[k] == edit_model(
                            #[trigger] edits@[k],
                        ));
                }
                assert(ev.push(em) =~= ev + seq![em]);
                assert(u.skip(1) =~= g.skip(i + 1));
            }
        } else {
            proof {
                assert(u.skip(1) =~= g.skip(i + 1));
                assert(Seq::<(int, int, Seq<u8>)>::empty() + align_group_spec(
                    source@,
                    g.skip(i + 1),
                    target_col as int,
                ) =~= align_group_spec(source@, g.skip(i + 1), target_col as int));
            }
        }
        i += 1;
    }
    proof {
        assert(g.skip(g.len() as int) =~= Seq::<CommentInfo>::empty());
    }
    edits
}

/// A comment takes part in alignment when it begins with `;;` and no named
/// sibling precedes it on its own row (inline comments are skipped).
pub open spec fn keep_comment(src: Seq<u8>, c: CommentNode) -> bool {
    &&& is_double_spec(src, c.start_byte as int)
    &&& match c.prev {
        Option::Some(s) => s.start_row != c.start_row,
        Option::None => true,
    }
}

/// The comments of `s` that take part in alignment, in order.
pub open spec fn filtered(src: Seq<u8>, s: Seq<CommentNode>) -> Seq<CommentNode>
    decreases s.len(),
{
    if s.len() == 0 {
        Seq::empty()
    } else {
        let head: Seq<CommentNode> = if keep_comment(src, s[0]) {
            seq![s[0]]
        } else {
            Seq::empty()
        };
        head + filtered(src, s.skip(1))
    }
}

proof fn lemma_filtered_keep(src: Seq<u8>, s: Seq<CommentNode>)
    ensures
        forall|i: int|
            0 <= i < filtered(src, s).len() ==> keep_comment(src, #[trigger] filtered(src, s)[i]),
    decreases s.len(),
{
    if s.len() > 0 {
        lemma_filtered_keep(src, s.skip(1));
        let f = filtered(src, s);
        let rest = filtered(src, s.skip(1));
        assert forall|i: int| 0 <= i < f.len() implies keep_comment(src, #[trigger] f[i]) by {
            if keep_comment(src, s[0]) {
                if i == 0 {
                    assert(f[0] == s[0]);
                } else {
                    assert(f[i] == rest[i - 1]);
                }
            } else {
                assert(f[i] == rest[i]);
            }
        }
    }
}

#[verifier::loop_isolation(false)]
fn filter_comments(source: &Vec<u8>, records: &Vec<CommentNode>) -> (r: Vec<CommentNode>)
    ensures
        r@ == filtered(source@, records@),
{
    let ghost t = records@;
    let mut kept: Vec<CommentNode> = Vec::new();
    let mut i: usize = 0;
    proof {
        assert(t.skip(0) =~= t);
        assert(kept@ =~= Seq::<CommentNode>::empty());
    }
    while i < records.len()
        invariant
            i <= t.len(),
            filtered(source@, t) == kept@ + filtered(source@, t.skip(i as int)),
        decreases t.len() - i,
    {
        let ghost u = t.skip(i as int);
        let c = records[i];
        assert(u[0] == c);
        let info = CommentInfo::from_node(&c);
        let double = is_double_comment(source, &info);
        let inline = match get_prev_named_sibling_row(&c) {
            Option::Some(row) => row == c.start_row,
            Option::None => false,
        };
        if double && !inline {
            kept.push(c);
            proof {
                assert(kept@ =~= kept@.drop_last() + seq![c] + Seq::<CommentNode>::empty());
            }
        }
        proof {
            assert(u.skip(1) =~= t.skip(i + 1));
            if double && !inline {
                assert(keep_comment(source@, c));
            } else {
                assert(!keep_comment(source@, c));
                assert(Seq::<CommentNode>::empty() + filtered(source@, t.skip(i + 1)) =~= filtered(
                    source@,
                    t.skip(i + 1),
                ));
            }
        }
        i += 1;
    }
    proof {
        assert(t.skip(t.len() as int) =~= Seq::<CommentNode>::empty());
    }
    kept
}

/// The column a comment group is aligned to: the column of the last
/// member's next named sibling on a later row, else that member's own
/// column.
pub open spec fn target_col_of(group: Seq<CommentNode>) -> int
    recommends
        group.len() > 0,
{
    match next_col_spec(group.last()) {
        Option::Some(c) => c as int,
        Option::None => group.last().start_col as int,
    }
}

/// The position records of a comment group.
pub open spec fn infos_of(group: Seq<CommentNode>) -> Seq<CommentInfo> {
    group.map_values(
        |c: CommentNode|
            CommentInfo { start_byte: c.start_byte, start_row: c.start_row, start_col: c.start_col },
    )
}

/// All alignment edits of a list of comment groups, in group order.
pub open spec fn all_edits_spec(src: Seq<u8>, groups: Seq<Seq<CommentNode>>) -> Seq<
    (int, int, Seq<u8>),
>
    decreases groups.len(),
{
    if groups.len() == 0 {
        Seq::empty()
    } else {
        let head: Seq<(int, int, Seq<u8>)> = if groups[0].len() == 0 {
            Seq::empty()
        } else {
            align_group_spec(src, infos_of(groups[0]), target_col_of(groups[0]))
        };
        head + all_edits_spec(src, groups.skip(1))
    }
}

/// The alignment edits that `records` give rise to on `src`.
pub open spec fn align_edits(src: Seq<u8>, records: Seq<CommentNode>) -> Seq<(int, int, Seq<u8>)> {
    all_edits_spec(src, groups_spec(filtered(src, records)))
}

/// The edits are in range and pairwise disjoint, so they can be applied.
pub open spec fn align_applicable(src: Seq<u8>, records: Seq<CommentNode>) -> bool {
    &&& edits_in_range(align_edits(src, records), src.len() as int)
    &&& edits_disjoint(align_edits(src, records))
}

/// The aligned buffer.
pub open spec fn align_result(src: Seq<u8>, records: Seq<CommentNode>) -> Seq<u8> {
    apply_edits_model(src, sort_desc(align_edits(src, records)))
}

#[verifier::loop_isolation(false)]
fn edits_ok_exec(edits: &Vec<Edit>, n: usize) -> (r: bool)
    ensures
        r == (edits_in_range(edits_view(edits@), n as int) && edits_disjoint(edits_view(edits@))),
{
    let ghost ev = edits_view(edits@);
    let mut i: usize = 0;
    while i < edits.len()
        invariant
            i <= ev.len(),
            forall|k: int| 0 <= k < i ==> 0 <= (#[trigger] ev[k]).0 <= ev[k].1 <= n as int,
            forall|k: int, j: int|
                0 <= k < j < ev.len() && k < i ==> (#[trigger] ev[k]).1 <= (#[trigger] ev[j]).0
                    || ev[j].1 <= ev[k].0,
        decreases ev.len() - i,
    {
        assert(ev[i as int] == edit_model(edits@[i as int]));
        if !(edits[i].start_byte <= edits[i].end_byte && edits[i].end_byte <= n) {
            return false;
        }
        let mut j: usize = i + 1;
        while j < edits.len()
            invariant
                i < j <= ev.len(),
                forall|m: int|
                    i < m < j ==> (#[trigger] ev[m]).1 <= ev[i as int].0 || ev[i as int].1
                        <= ev[m].0,
            decreases ev.len() - j,
        {
            assert(ev[j as int] == edit_model(edits@[j as int]));
            let disjoint = edits[i].end_byte <= edits[j].start_byte || edits[j].end_byte
                <= edits[i].start_byte;
            if !disjoint {
                return false;
            }
            j += 1;
        }
        i += 1;
    }
    true
}

/// Aligns the `;;` comments described by `records` inside `source`: filters
/// to block comments that start their own row, groups sibling runs, aligns
/// each group to its following sibling's column, and applies the edits.
/// Fails only when the records describe overlapping or out-of-range edits,
/// which a parse of `source` itself never produces.
#[verifier::loop_isolation(false)]
pub fn align_comments(source: Vec<u8>, records: &Vec<CommentNode>) -> (r: Result<
    Vec<u8>,
    FormatError,
>)
    ensures
        align_applicable(source@, records@) ==> (r matches Ok(out) && out@ == align_result(
            source@,
            records@,
        )),
        !align_applicable(source@, records@) ==> r is Err,
{
    let ghost src = source@;
    let kept = filter_comments(&source, records);
    proof {
        lemma_filtered_keep(src, records@);
    }
    if kept.len() == 0 {
        proof {
            assert(groups_spec(kept@) == Seq::<Seq<CommentNode>>::empty());
            assert(align_edits(src, records@) =~= Seq::<(int, int, Seq<u8>)>::empty());
            crate::edits::lemma_sort_desc_identity(align_edits(src, records@));
        }
        return Ok(source);
    }
    let groups = group_related_comments(&kept);
    let ghost gv = groups_view(groups@);
    proof {
        lemma_groups_rec_elems(kept@, Seq::<CommentNode>::empty());
        assert(gv.skip(0) =~= gv);
    }
    let mut edits: Vec<Edit> = Vec::new();
    let mut gi: usize = 0;
    proof {
        assert(edits_view(edits@) =~= Seq::<(int, int, Seq<u8>)>::empty());
    }
    while gi < groups.len()
        invariant
            gi <= gv.len(),
            groups_view(groups@) == gv,
            all_edits_spec(src, gv) == edits_view(edits@) + all_edits_spec(
                src,
                gv.skip(gi as int),
            ),
        decreases gv.len() - gi,
    {
        let ghost u = gv.skip(gi as int);
        proof {
            assert(u[0] == gv[gi as int]);
            assert(gv[gi as int] == groups@[gi as int]@);
        }
        let g_len = groups[gi].len();
        if g_len > 0 {
            let last = groups[gi][g_len - 1];
            proof {
                assert(last == groups@[gi as int]@.last());
            }
            let target_col = match get_next_named_sibling_col(&last) {
                Option::Some(c) => c,
                Option::None => last.start_col,
            };
            proof {
                assert(target_col as int == target_col_of(gv[gi as int]));
            }
            let mut infos: Vec<CommentInfo> = Vec::new();
            let mut m: usize = 0;
            proof {
                assert(infos@ =~= infos_of(gv[gi as int]).take(0));
            }
            while m < groups[gi].len()
                invariant
                    gi < groups@.len(),
                    m <= groups@[gi as int]@.len(),
                    infos@ == infos_of(gv[gi as int]).take(m as int),
                    gv[gi as int] == groups@[gi as int]@,
                decreases groups@[gi as int]@.len() - m,
            {
                let c = groups[gi][m];
                infos.push(CommentInfo::from_node(&c));
                proof {
                    let iv = infos_of(gv[gi as int]);
                    assert(iv[m as int] == CommentInfo {
                        start_byte: c.start_byte,
                        start_row: c.start_row,
                        start_col: c.start_col,
                    });
                    assert(iv.take(m + 1 as int) =~= iv.take(m as int).push(iv[m as int]));
                }
                m += 1;
            }
            proof {
                let iv = infos_of(gv[gi as int]);
                assert(iv.take(iv.len() as int) =~= iv);
                assert forall|k: int| 0 <= k < infos@.len() implies (
                #[trigger] infos@[k]).start_byte <= src.len() by {
                    let e = gv[gi as int][k];
                    assert(infos@[k].start_byte == e.start_byte);
                    assert(kept@.contains(e) || Seq::<CommentNode>::empty().contains(e));
                    let ki = choose|ki: int| 0 <= ki < kept@.len() && kept@[ki] == e;
                    assert(keep_comment(src, e));
                }
            }
            let ghost ev0 = edits_view(edits@);
            let mut group_edits = align_comment_group(&source, &infos, target_col);
            let ghost gev = edits_view(group_edits@);
            edits.append(&mut group_edits);
            proof {
                assert(edits_view(edits@) =~= ev0 + gev) by {
                    assert(forall|k: int|
                        0 <= k < edits@.len() ==> edits_view(edits@)[k] == edit_model(
                            #[trigger] edits@[k],
                        ));
                    assert(forall|k: int|
                        0 <= k < ev0.len() ==> ev0[k] == edit_model(#[trigger] edits@[k]));
                }
                assert(all_edits_spec(src, u) == gev + all_edits_spec(src, u.skip(1)));
                assert(u.skip(1) =~= gv.skip(gi + 1));
            }
        } else {
            proof {
                assert(all_edits_spec(src, u) == Seq::<(int, int, Seq<u8>)>::empty()
                    + all_edits_spec(src, u.skip(1)));
                assert(Seq::<(int, int, Seq<u8>)>::empty() + all_edits_spec(src, u.skip(1)) =~=
                    all_edits_spec(src, u.skip(1)));
                assert(u.skip(1) =~= gv.skip(gi + 1));
            }
        }
        gi += 1;
    }
    proof {
        assert(gv.skip(gv.len() as int) =~= Seq::<Seq<CommentNode>>::empty());
        assert(edits_view(edits@) == align_edits(src, records@));
    }
    if edits_ok_exec(&edits, source.len()) {
        let out = apply_edits(source, edits);
        Ok(out)
    } else {
        Err(FormatError::OverlapError)
    }
}

} // verus!
