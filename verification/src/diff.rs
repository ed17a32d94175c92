//! The line-level diff engine: turns two line sequences plus an edit
//! script into unified-diff hunks, merging overlapping context windows so
//! that the output matches conventional unified-diff syntax.

use vstd::prelude::*;

use crate::strutil::{dec_seq, push_char, push_dec};

verus! {

/// One maximal contiguous difference between the two line sequences:
/// lines `[old_start, old_end)` of the old side were replaced by lines
/// `[new_start, new_end)` of the new side.
#[derive(Clone, Copy)]
pub struct UnifiedEdit {
    pub old_start: usize,
    pub old_end: usize,
    pub new_start: usize,
    pub new_end: usize,
}

/// A hunk: a merged window over one or more edits, with the edits it holds.
pub struct UnifiedHunk {
    pub old_start: usize,
    pub old_end: usize,
    pub new_start: usize,
    pub new_end: usize,
    pub edits: Vec<UnifiedEdit>,
}

/// `x - c`, stopping at zero.
pub open spec fn clamp_lo(x: int, c: int) -> int {
    if x >= c {
        x - c
    } else {
        0
    }
}

/// `x + c`, stopping at `len`.
pub open spec fn clamp_hi(x: int, c: int, len: int) -> int {
    if x + c <= len {
        x + c
    } else {
        len
    }
}

/// A single edit that stays inside the two files and changes something.
pub open spec fn edit_wf(e: UnifiedEdit, ol: int, nl: int) -> bool {
    &&& e.old_start <= e.old_end <= ol
    &&& e.new_start <= e.new_end <= nl
    &&& (e.old_end > e.old_start || e.new_end > e.new_start)
}

/// A well-formed edit script, as a line-diff algorithm produces it: edits
/// in ascending order, separated by at least one unchanged line, with the
/// unchanged gaps (before the first edit, between edits, and after the
/// last edit) of equal length on both sides.
pub open spec fn edits_wf(s: Seq<UnifiedEdit>, ol: int, nl: int) -> bool {
    &&& (forall|i: int| 0 <= i < s.len() ==> edit_wf(#[trigger] s[i], ol, nl))
    &&& (forall|i: int|
        0 <= i && i + 1 < s.len() ==> #[trigger] s[i].old_end < s[i + 1].old_start)
    &&& (forall|i: int|
        0 <= i && i + 1 < s.len() ==> #[trigger] s[i + 1].old_start - s[i].old_end == s[i
            + 1].new_start - s[i].new_end)
    &&& (s.len() > 0 ==> s[0].old_start == s[0].new_start)
    &&& (s.len() > 0 ==> ol - s[s.len() - 1].old_end == nl - s[s.len() - 1].new_end)
}

/// Whether the expanded context window of `b` touches or overlaps the
/// window that ends at `(old_hi, new_hi)`.
pub open spec fn window_touches(b: UnifiedEdit, c: int, old_hi: int, new_hi: int) -> bool {
    clamp_lo(b.old_start as int, c) <= old_hi && clamp_lo(b.new_start as int, c) <= new_hi
}

/// The edits of a hunk sequence, in order.
pub open spec fn edits_of(hs: Seq<UnifiedHunk>) -> Seq<UnifiedEdit>
    decreases hs.len(),
{
    if hs.len() == 0 {
        Seq::empty()
    } else {
        edits_of(hs.drop_last()) + hs.last().edits@
    }
}

/// What the renderer needs of a hunk, short of the trailing-context
/// condition: ordered, aligned member edits inside the window, with the
/// leading context gap equal on the old and new side.
pub open spec fn hunk_renderable_head(h: UnifiedHunk, ol: int, nl: int) -> bool {
    let es = h.edits@;
    &&& es.len() > 0
    &&& (forall|i: int| 0 <= i < es.len() ==> edit_wf(#[trigger] es[i], ol, nl))
    &&& (forall|i: int|
        0 <= i && i + 1 < es.len() ==> #[trigger] es[i].old_end <= es[i + 1].old_start)
    &&& (forall|i: int|
        0 <= i && i + 1 < es.len() ==> #[trigger] es[i + 1].old_start - es[i].old_end == es[i
            + 1].new_start - es[i].new_end)
    &&& h.old_start <= es[0].old_start
    &&& h.new_start <= es[0].new_start
    &&& es[0].old_start - h.old_start == es[0].new_start - h.new_start
    &&& h.old_start <= h.old_end
    &&& h.new_start <= h.new_end
    &&& es.last().old_end <= h.old_end <= ol
    &&& es.last().new_end <= h.new_end <= nl
}

/// What the renderer needs of a hunk: additionally, the trailing context
/// gap is equal on the old and new side.
pub open spec fn hunk_renderable(h: UnifiedHunk, ol: int, nl: int) -> bool {
    let es = h.edits@;
    &&& hunk_renderable_head(h, ol, nl)
    &&& h.old_end - es.last().old_end == h.new_end - es.last().new_end
}

/// The window of a hunk is its member edits' windows merged: it starts at
/// the first edit's expanded start and ends at the last edit's expanded
/// end, on both sides.
pub open spec fn hunk_window_exact(h: UnifiedHunk, c: int, ol: int, nl: int) -> bool {
    let es = h.edits@;
    &&& es.len() > 0
    &&& h.old_start == clamp_lo(es[0].old_start as int, c)
    &&& h.new_start == clamp_lo(es[0].new_start as int, c)
    &&& h.old_end == clamp_hi(es.last().old_end as int, c, ol)
    &&& h.new_end == clamp_hi(es.last().new_end as int, c, nl)
}

/// Two hunks in order whose windows do not touch: the later one begins
/// strictly after the earlier one ends, on the old side or on the new side.
pub open spec fn hunks_separated(a: UnifiedHunk, b: UnifiedHunk) -> bool {
    b.old_start > a.old_end || b.new_start > a.new_end
}

/// The data of a hunk: its window and its member edits.
pub ghost struct HunkModel {
    pub old_start: int,
    pub old_end: int,
    pub new_start: int,
    pub new_end: int,
    pub edits: Seq<UnifiedEdit>,
}

/// The data of one hunk value.
pub open spec fn hunk_model(h: UnifiedHunk) -> HunkModel {
    HunkModel {
        old_start: h.old_start as int,
        old_end: h.old_end as int,
        new_start: h.new_start as int,
        new_end: h.new_end as int,
        edits: h.edits@,
    }
}

/// The data of a hunk list.
pub open spec fn hunk_models(hs: Seq<UnifiedHunk>) -> Seq<HunkModel> {
    hs.map_values(|h: UnifiedHunk| hunk_model(h))
}

/// The merged hunks of an edit script: each edit's context window is
/// clamped to the files, and a window that touches the hunk under
/// construction extends it, else it opens a new hunk.
#[verifier::opaque]
pub open spec fn merged_hunks(edits: Seq<UnifiedEdit>, c: int, ol: int, nl: int) -> Seq<HunkModel>
    decreases edits.len(),
{
    if edits.len() == 0 {
        Seq::empty()
    } else {
        let prev = merged_hunks(edits.drop_last(), c, ol, nl);
        let e = edits.last();
        let os = clamp_lo(e.old_start as int, c);
        let oe = clamp_hi(e.old_end as int, c, ol);
        let ns = clamp_lo(e.new_start as int, c);
        let ne = clamp_hi(e.new_end as int, c, nl);
        if prev.len() > 0 && os <= prev.last().old_end && ns <= prev.last().new_end {
            prev.update(
                prev.len() - 1,
                HunkModel {
                    old_start: prev.last().old_start,
                    old_end: if prev.last().old_end >= oe {
                        prev.last().old_end
                    } else {
                        oe
                    },
                    new_start: prev.last().new_start,
                    new_end: if prev.last().new_end >= ne {
                        prev.last().new_end
                    } else {
                        ne
                    },
                    edits: prev.last().edits.push(e),
                },
            )
        } else {
            prev.push(
                HunkModel { old_start: os, old_end: oe, new_start: ns, new_end: ne, edits: seq![e] },
            )
        }
    }
}

/// The lines `lines[lo..hi]`, each preceded by the marker character.
#[verifier::opaque]
pub open spec fn marked_lines(p: char, lines: Seq<Seq<char>>, lo: int, hi: int) -> Seq<Seq<char>>
    decreases hi - lo,
{
    if lo >= hi {
        Seq::empty()
    } else {
        marked_lines(p, lines, lo, hi - 1).push(seq![p] + lines[hi - 1])
    }
}

/// The body lines the member edits contribute, rendering from old-side
/// position `oi`: the shared context up to each edit, then its removed
/// lines, then its added lines.
#[verifier::opaque]
pub open spec fn edits_body(
    es: Seq<UnifiedEdit>,
    oi: int,
    old: Seq<Seq<char>>,
    new: Seq<Seq<char>>,
) -> Seq<Seq<char>>
    decreases es.len(),
{
    if es.len() == 0 {
        Seq::empty()
    } else {
        let e = es[0];
        marked_lines(' ', old, oi, e.old_start as int) + marked_lines(
            '-',
            old,
            e.old_start as int,
            e.old_end as int,
        ) + marked_lines('+', new, e.new_start as int, e.new_end as int) + edits_body(
            es.subrange(1, es.len() as int),
            e.old_end as int,
            old,
            new,
        )
    }
}

/// The body of a hunk: its edits' lines, then the trailing context up to
/// the window's end.
pub open spec fn hunk_body_spec(h: HunkModel, old: Seq<Seq<char>>, new: Seq<Seq<char>>) -> Seq<
    Seq<char>,
> {
    if h.edits.len() == 0 {
        Seq::empty()
    } else {
        edits_body(h.edits, h.old_start, old, new) + marked_lines(
            ' ',
            old,
            h.edits.last().old_end as int,
            h.old_end,
        )
    }
}

/// The full rendering of one hunk: its header line, then its body.
pub open spec fn hunk_render(h: HunkModel, old: Seq<Seq<char>>, new: Seq<Seq<char>>) -> Seq<
    Seq<char>,
> {
    seq![
        hunk_header_seq(
            header_pos(h.old_start, h.old_end - h.old_start) as nat,
            (h.old_end - h.old_start) as nat,
            header_pos(h.new_start, h.new_end - h.new_start) as nat,
            (h.new_end - h.new_start) as nat,
        ),
    ] + hunk_body_spec(h, old, new)
}

/// The renderings of the hunks, in order.
#[verifier::opaque]
pub open spec fn hunks_render(hs: Seq<HunkModel>, old: Seq<Seq<char>>, new: Seq<Seq<char>>) -> Seq<
    Seq<char>,
>
    decreases hs.len(),
{
    if hs.len() == 0 {
        Seq::empty()
    } else {
        hunks_render(hs.drop_last(), old, new) + hunk_render(hs.last(), old, new)
    }
}

/// The complete unified-hunk rendering of an edit script over two line
/// sequences.
pub open spec fn rendered_hunks(
    edits: Seq<UnifiedEdit>,
    c: int,
    old: Seq<Seq<char>>,
    new: Seq<Seq<char>>,
) -> Seq<Seq<char>> {
    hunks_render(merged_hunks(edits, c, old.len() as int, new.len() as int), old, new)
}

/// Everything the merging loop keeps true of the hunks built so far for
/// the first `i` edits: they hold exactly those edits in order, all but
/// the one under construction are fully renderable, every window is the
/// union of its member edits' windows, and consecutive hunks do not
/// touch.
#[verifier::opaque]
spec fn merge_inv(
    edits: Seq<UnifiedEdit>,
    i: int,
    hs: Seq<UnifiedHunk>,
    c: int,
    ol: int,
    nl: int,
) -> bool {
    &&& edits_of(hs) == edits.subrange(0, i)
    &&& (hs.len() == 0 <==> i == 0)
    &&& (i > 0 ==> hs.last().edits@.len() > 0 && hs.last().edits@.last() == edits[i - 1])
    &&& (forall|k: int| 0 <= k < hs.len() ==> hunk_renderable_head(#[trigger] hs[k], ol, nl))
    &&& (forall|k: int| 0 <= k && k + 1 < hs.len() ==> hunk_renderable(#[trigger] hs[k], ol, nl))
    &&& (forall|k: int| 0 <= k < hs.len() ==> hunk_window_exact(#[trigger] hs[k], c, ol, nl))
    &&& (forall|k: int|
        0 <= k && k + 1 < hs.len() ==> hunks_separated(#[trigger] hs[k], hs[k + 1]))
    &&& (edits.len() == 2 && i == 2 && window_touches(
        edits[1],
        c,
        clamp_hi(edits[0].old_end as int, c, ol),
        clamp_hi(edits[0].new_end as int, c, nl),
    ) ==> hs.len() == 1)
}

/// Extends the hunk under construction with the next edit, whose clamped
/// window touches it.
#[verifier::rlimit(100)]
fn merge_step_extend(
    hs: &mut Vec<UnifiedHunk>,
    e: UnifiedEdit,
    old_end: usize,
    new_end: usize,
    Ghost(edits): Ghost<Seq<UnifiedEdit>>,
    Ghost(i): Ghost<int>,
    Ghost(c): Ghost<int>,
    Ghost(ol): Ghost<int>,
    Ghost(nl): Ghost<int>,
)
    requires
        edits_wf(edits, ol, nl),
        0 <= c,
        0 <= i < edits.len(),
        e == edits[i],
        old(hs)@.len() > 0,
        merge_inv(edits, i, old(hs)@, c, ol, nl),
        hunk_models(old(hs)@) == merged_hunks(edits.subrange(0, i), c, ol, nl),
        old_end as int == clamp_hi(e.old_end as int, c, ol),
        new_end as int == clamp_hi(e.new_end as int, c, nl),
        clamp_lo(e.old_start as int, c) <= old(hs)@.last().old_end,
        clamp_lo(e.new_start as int, c) <= old(hs)@.last().new_end,
    ensures
        merge_inv(edits, i + 1, final(hs)@, c, ol, nl),
        hunk_models(final(hs)@) == merged_hunks(edits.subrange(0, i + 1), c, ol, nl),
{
    let ghost hs_before = hs@;
    proof {
        assert(edit_wf(edits[i], ol, nl));
        assert(hs_before.last() == hs_before[hs_before.len() - 1]);
        assert(i > 0 && hunk_renderable_head(hs_before.last(), ol, nl) && hunk_window_exact(
            hs_before.last(),
            c,
            ol,
            nl,
        ) && edits_of(hs_before) == edits.subrange(0, i) && hs_before.last().edits@.len() > 0
            && hs_before.last().edits@.last() == edits[i - 1]) by {
            reveal(merge_inv);
        }
    }
    let mut lh = hs.pop().unwrap();
    if lh.old_end < old_end {
        lh.old_end = old_end;
    }
    if lh.new_end < new_end {
        lh.new_end = new_end;
    }
    lh.edits.push(e);
    hs.push(lh);
    proof {
        let prev = hs_before[hs_before.len() - 1];
        let cur = hs@[hs@.len() - 1];
        let pe = prev.edits@.last();
        assert(pe == edits[i - 1]);
        assert(edits[i - 1].old_end < edits[i].old_start);
        assert(edits[i].old_start - edits[i - 1].old_end == edits[i].new_start - edits[i
            - 1].new_end);
        // window ends only grow, and the new edit lies past the old ones
        assert(clamp_hi(pe.old_end as int, c, ol) <= clamp_hi(e.old_end as int, c, ol));
        assert(clamp_hi(pe.new_end as int, c, nl) <= clamp_hi(e.new_end as int, c, nl));
        assert(cur.old_end as int == clamp_hi(e.old_end as int, c, ol));
        assert(cur.new_end as int == clamp_hi(e.new_end as int, c, nl));
        assert(cur.edits@ =~= prev.edits@.push(e));
        assert(cur.edits@.last() == e);
        assert(cur.edits@[0] == prev.edits@[0]);
        assert(forall|t: int|
            0 <= t < prev.edits@.len() ==> #[trigger] cur.edits@[t] == prev.edits@[t]);
        assert forall|t: int| 0 <= t < cur.edits@.len() implies edit_wf(
            #[trigger] cur.edits@[t],
            ol,
            nl,
        ) by {
            reveal(merge_inv);
            if t < prev.edits@.len() {
                assert(edit_wf(prev.edits@[t], ol, nl));
            }
        }
        assert forall|t: int| 0 <= t && t + 1 < cur.edits@.len() implies (#[trigger] cur.edits@[
        t].old_end <= cur.edits@[t + 1].old_start && cur.edits@[t + 1].old_start - cur.edits@[
        t].old_end == cur.edits@[t + 1].new_start - cur.edits@[t].new_end) by {
            if t + 1 < prev.edits@.len() {
                assert(prev.edits@[t].old_end <= prev.edits@[t + 1].old_start);
                assert(prev.edits@[t + 1].old_start - prev.edits@[t].old_end == prev.edits@[t
                    + 1].new_start - prev.edits@[t].new_end);
            } else {
                assert(cur.edits@[t] == pe);
                assert(cur.edits@[t + 1] == e);
            }
        }
        assert(hunk_renderable_head(cur, ol, nl));
        assert(hunk_window_exact(cur, c, ol, nl));
        assert(hs@.drop_last() =~= hs_before.drop_last());
        assert(edits_of(hs_before) == edits_of(hs_before.drop_last()) + prev.edits@);
        assert(edits_of(hs@) == edits_of(hs_before.drop_last()) + cur.edits@);
        assert(edits.subrange(0, i + 1) =~= edits.subrange(0, i).push(edits[i]));
        assert(edits_of(hs@) =~= edits.subrange(0, i + 1));
        assert(hunk_models(hs@) == merged_hunks(edits.subrange(0, i + 1), c, ol, nl)) by {
            reveal(merged_hunks);
            assert(edits.subrange(0, i + 1).drop_last() =~= edits.subrange(0, i));
            assert(edits.subrange(0, i + 1).last() == edits[i]);
            assert(hunk_models(hs@) =~= hunk_models(hs_before).update(
                hs_before.len() - 1,
                hunk_model(cur),
            ));
            assert(hunk_models(hs_before).last() == hunk_model(prev));
            assert(hunk_models(hs@) =~= merged_hunks(edits.subrange(0, i + 1), c, ol, nl));
        }
        assert(merge_inv(edits, i + 1, hs@, c, ol, nl)) by {
            reveal(merge_inv);
            assert forall|k: int| 0 <= k && k + 1 < hs@.len() implies hunks_separated(
                #[trigger] hs@[k],
                hs@[k + 1],
            ) by {
                assert(hs@[k] == hs_before[k]);
                if k + 1 < hs@.len() - 1 {
                    assert(hs@[k + 1] == hs_before[k + 1]);
                } else {
                    assert(hunks_separated(hs_before[k], hs_before[k + 1]));
                    assert(hs@[k + 1].old_start == hs_before[k + 1].old_start);
                    assert(hs@[k + 1].new_start == hs_before[k + 1].new_start);
                }
            }
        }
    }
}

/// Opens a new hunk for the next edit, whose clamped window does not
/// touch the hunk under construction.
#[verifier::rlimit(100)]
fn merge_step_open(
    hs: &mut Vec<UnifiedHunk>,
    e: UnifiedEdit,
    old_start: usize,
    old_end: usize,
    new_start: usize,
    new_end: usize,
    Ghost(edits): Ghost<Seq<UnifiedEdit>>,
    Ghost(i): Ghost<int>,
    Ghost(c): Ghost<int>,
    Ghost(ol): Ghost<int>,
    Ghost(nl): Ghost<int>,
)
    requires
        edits_wf(edits, ol, nl),
        0 <= c,
        0 <= i < edits.len(),
        e == edits[i],
        merge_inv(edits, i, old(hs)@, c, ol, nl),
        hunk_models(old(hs)@) == merged_hunks(edits.subrange(0, i), c, ol, nl),
        old_start as int == clamp_lo(e.old_start as int, c),
        old_end as int == clamp_hi(e.old_end as int, c, ol),
        new_start as int == clamp_lo(e.new_start as int, c),
        new_end as int == clamp_hi(e.new_end as int, c, nl),
        old(hs)@.len() > 0 ==> !(old_start as int <= old(hs)@.last().old_end && new_start as int
            <= old(hs)@.last().new_end),
    ensures
        merge_inv(edits, i + 1, final(hs)@, c, ol, nl),
        hunk_models(final(hs)@) == merged_hunks(edits.subrange(0, i + 1), c, ol, nl),
{
    let ghost hs_before = hs@;
    proof {
        assert(edit_wf(edits[i], ol, nl));
        assert((hs_before.len() == 0 <==> i == 0) && edits_of(hs_before) == edits.subrange(0, i)
            && (i > 0 ==> hunk_renderable_head(hs_before.last(), ol, nl) && hunk_window_exact(
            hs_before.last(),
            c,
            ol,
            nl,
        ) && hs_before.last().edits@.len() > 0 && hs_before.last().edits@.last() == edits[i
            - 1])) by {
            reveal(merge_inv);
            if hs_before.len() > 0 {
                assert(hs_before.last() == hs_before[hs_before.len() - 1]);
            }
        }
    }
    let mut member: Vec<UnifiedEdit> = Vec::new();
    member.push(e);
    let h = UnifiedHunk { old_start, old_end, new_start, new_end, edits: member };
    proof {
        // leading context gaps are equal on both sides: either this is the
        // first edit (the script starts aligned), or the previous window did
        // not touch, which forces a gap larger than the context on both
        // sides; that gap also settles the trailing context of the hunk that
        // is now complete
        if i == 0 {
            assert(e.old_start == e.new_start);
        } else {
            let prev = hs_before.last();
            let pe = prev.edits@.last();
            assert(pe == edits[i - 1]);
            let g = e.old_start - pe.old_end;
            assert(g == e.new_start - pe.new_end);
            assert(g >= 1);
            assert(!(old_start as int <= prev.old_end && new_start as int <= prev.new_end));
            assert(prev.old_end == clamp_hi(pe.old_end as int, c, ol));
            assert(prev.new_end == clamp_hi(pe.new_end as int, c, nl));
            if old_start as int > prev.old_end {
                assert(prev.old_end >= pe.old_end);
                assert(old_start as int == e.old_start - c);
                assert(prev.old_end == pe.old_end + c);
                assert(g > 2 * c);
            } else {
                assert(new_start as int > prev.new_end);
                assert(prev.new_end >= pe.new_end);
                assert(new_start as int == e.new_start - c);
                assert(prev.new_end == pe.new_end + c);
                assert(g > 2 * c);
            }
            assert(e.old_start as int >= g > c);
            assert(e.new_start as int >= g > c);
            assert(e.old_start - old_start == c);
            assert(e.new_start - new_start == c);
            assert(ol - pe.old_end >= g);
            assert(nl - pe.new_end >= g);
            assert(prev.old_end - pe.old_end == c);
            assert(prev.new_end - pe.new_end == c);
            assert(hunk_renderable(prev, ol, nl));
        }
        assert(h.edits@ =~= seq![e]);
        assert(hunk_renderable_head(h, ol, nl));
        assert(hunk_window_exact(h, c, ol, nl));
    }
    hs.push(h);
    proof {
        assert(hs@.drop_last() =~= hs_before);
        assert(edits_of(hs@) == edits_of(hs_before) + h.edits@);
        assert(edits.subrange(0, i + 1) =~= edits.subrange(0, i).push(edits[i]));
        assert(edits_of(hs@) =~= edits.subrange(0, i + 1));
        assert(hunk_models(hs@) == merged_hunks(edits.subrange(0, i + 1), c, ol, nl)) by {
            reveal(merged_hunks);
            assert(edits.subrange(0, i + 1).drop_last() =~= edits.subrange(0, i));
            assert(edits.subrange(0, i + 1).last() == edits[i]);
            assert(hunk_models(hs@) =~= hunk_models(hs_before).push(hunk_model(h)));
            if hs_before.len() > 0 {
                assert(hunk_models(hs_before).last() == hunk_model(hs_before.last()));
            }
            assert(hunk_models(hs@) =~= merged_hunks(edits.subrange(0, i + 1), c, ol, nl));
        }
        assert(merge_inv(edits, i + 1, hs@, c, ol, nl)) by {
            reveal(merge_inv);
            assert forall|k: int| 0 <= k && k + 1 < hs@.len() implies hunks_separated(
                #[trigger] hs@[k],
                hs@[k + 1],
            ) by {
                if k + 1 < hs@.len() - 1 {
                    assert(hs@[k] == hs_before[k] && hs@[k + 1] == hs_before[k + 1]);
                } else {
                    assert(hs@[k] == hs_before.last());
                    assert(hs@[k + 1] == h);
                }
            }
            assert forall|k: int| 0 <= k && k + 1 < hs@.len() implies hunk_renderable(
                #[trigger] hs@[k],
                ol,
                nl,
            ) by {
                if k + 1 < hs@.len() - 1 {
                    assert(hs@[k] == hs_before[k]);
                    assert(hunk_renderable(hs_before[k], ol, nl));
                } else {
                    assert(hs@[k] == hs_before.last());
                }
            }
        }
    }
}

/// Groups the edits into hunks: each edit's context window is
/// `[start - context, end + context)` clamped to the file, and windows
/// that touch or overlap are merged into one hunk, exactly as
/// [`merged_hunks`] describes.
///
/// The later conditions are the merge laws: hunks partition the edit
/// list in order, no two hunks overlap, and two edits whose windows touch
/// always land in one hunk together.
pub fn merge_hunks(edits: &Vec<UnifiedEdit>, context: usize, old_len: usize, new_len: usize) -> (hs:
    Vec<UnifiedHunk>)
    requires
        edits_wf(edits@, old_len as int, new_len as int),
    ensures
        hunk_models(hs@) == merged_hunks(
            edits@,
            context as int,
            old_len as int,
            new_len as int,
        ),
        edits_of(hs@) == edits@,
        hs@.len() == 0 <==> edits@.len() == 0,
        forall|k: int|
            0 <= k < hs@.len() ==> hunk_renderable(
                #[trigger] hs@[k],
                old_len as int,
                new_len as int,
            ),
        forall|k: int|
            0 <= k < hs@.len() ==> hunk_window_exact(
                #[trigger] hs@[k],
                context as int,
                old_len as int,
                new_len as int,
            ),
        forall|k: int|
            0 <= k && k + 1 < hs@.len() ==> hunks_separated(#[trigger] hs@[k], hs@[k + 1]),
        edits@.len() == 2 && window_touches(
            edits@[1],
            context as int,
            clamp_hi(edits@[0].old_end as int, context as int, old_len as int),
            clamp_hi(edits@[0].new_end as int, context as int, new_len as int),
        ) ==> hs@.len() == 1,
{
    let ghost ol = old_len as int;
    let ghost nl = new_len as int;
    let ghost c = context as int;
    let mut hs: Vec<UnifiedHunk> = Vec::new();
    let mut i: usize = 0;
    proof {
        assert(merge_inv(edits@, 0, hs@, c, ol, nl)) by {
            reveal(merge_inv);
            assert(edits_of(hs@) =~= edits@.subrange(0, 0));
        }
        assert(hunk_models(hs@) =~= merged_hunks(edits@.subrange(0, 0), c, ol, nl)) by {
            reveal(merged_hunks);
        }
    }
    while i < edits.len()
        invariant
            edits_wf(edits@, ol, nl),
            ol == old_len as int,
            nl == new_len as int,
            c == context as int,
            i <= edits@.len(),
            hunk_models(hs@) == merged_hunks(edits@.subrange(0, i as int), c, ol, nl),
            merge_inv(edits@, i as int, hs@, c, ol, nl),
        decreases edits@.len() - i,
    {
        let e = edits[i];
        proof {
            assert(e == edits@[i as int]);
            assert(edit_wf(edits@[i as int], ol, nl));
        }
        let old_start: usize = if e.old_start >= context {
            e.old_start - context
        } else {
            0
        };
        let old_end: usize = if old_len - e.old_end >= context {
            e.old_end + context
        } else {
            old_len
        };
        let new_start: usize = if e.new_start >= context {
            e.new_start - context
        } else {
            0
        };
        let new_end: usize = if new_len - e.new_end >= context {
            e.new_end + context
        } else {
            new_len
        };
        proof {
            assert(old_start as int == clamp_lo(e.old_start as int, c));
            assert(old_end as int == clamp_hi(e.old_end as int, c, ol));
            assert(new_start as int == clamp_lo(e.new_start as int, c));
            assert(new_end as int == clamp_hi(e.new_end as int, c, nl));
        }
        let mut merged: bool = false;
        if hs.len() > 0 {
            let last_idx: usize = hs.len() - 1;
            if old_start <= hs[last_idx].old_end && new_start <= hs[last_idx].new_end {
                proof {
                    assert(hs@.last() == hs@[last_idx as int]);
                }
                merge_step_extend(
                    &mut hs,
                    e,
                    old_end,
                    new_end,
                    Ghost(edits@),
                    Ghost(i as int),
                    Ghost(c),
                    Ghost(ol),
                    Ghost(nl),
                );
                merged = true;
            }
        }
        if !merged {
            merge_step_open(
                &mut hs,
                e,
                old_start,
                old_end,
                new_start,
                new_end,
                Ghost(edits@),
                Ghost(i as int),
                Ghost(c),
                Ghost(ol),
                Ghost(nl),
            );
        }
        i = i + 1;
    }
    proof {
        assert(edits@.subrange(0, edits@.len() as int) =~= edits@);
        assert(edits_of(hs@) == edits@ && (hs@.len() == 0 <==> edits@.len() == 0) && (forall|
            k: int,
        |
            0 <= k < hs@.len() ==> hunk_renderable_head(#[trigger] hs@[k], ol, nl)) && (forall|
            k: int,
        |
            0 <= k && k + 1 < hs@.len() ==> hunk_renderable(#[trigger] hs@[k], ol, nl)) && (forall|
            k: int,
        |
            0 <= k < hs@.len() ==> hunk_window_exact(#[trigger] hs@[k], c, ol, nl)) && (forall|
            k: int,
        |
            0 <= k && k + 1 < hs@.len() ==> hunks_separated(#[trigger] hs@[k], hs@[k + 1])) && (
        edits@.len() == 2 && window_touches(
            edits@[1],
            c,
            clamp_hi(edits@[0].old_end as int, c, ol),
            clamp_hi(edits@[0].new_end as int, c, nl),
        ) ==> hs@.len() == 1) && (i as int > 0 ==> hs@.last().edits@.len() > 0
            && hs@.last().edits@.last() == edits@[i - 1])) by {
            reveal(merge_inv);
        }
        if hs@.len() > 0 {
            // the trailing context of the final hunk is settled by the edit
            // script ending aligned
            let lasth = hs@.last();
            let le = lasth.edits@.last();
            assert(le == edits@[edits@.len() - 1]);
            assert(ol - le.old_end == nl - le.new_end);
            assert(hunk_window_exact(lasth, c, ol, nl));
            assert(lasth.old_end == clamp_hi(le.old_end as int, c, ol));
            assert(lasth.new_end == clamp_hi(le.new_end as int, c, nl));
            assert(lasth.old_end - le.old_end == lasth.new_end - le.new_end);
            assert(hunk_renderable(lasth, ol, nl));
            assert forall|k: int| 0 <= k < hs@.len() implies hunk_renderable(
                #[trigger] hs@[k],
                ol,
                nl,
            ) by {
                if k == hs@.len() - 1 {
                    assert(hs@[k] == lasth);
                }
            }
        }
    }
    hs
}

/// A body line carrying an old-side line: context or deletion.
pub open spec fn is_old_side(l: Seq<char>) -> bool {
    l.len() > 0 && (l[0] == ' ' || l[0] == '-')
}

/// A body line carrying a new-side line: context or insertion.
pub open spec fn is_new_side(l: Seq<char>) -> bool {
    l.len() > 0 && (l[0] == ' ' || l[0] == '+')
}

/// How many lines of `s` carry an old-side line.
pub open spec fn count_old_side(s: Seq<Seq<char>>) -> int
    decreases s.len(),
{
    if s.len() == 0 {
        0
    } else {
        count_old_side(s.drop_last()) + if is_old_side(s.last()) {
            1int
        } else {
            0int
        }
    }
}

/// How many lines of `s` carry a new-side line.
pub open spec fn count_new_side(s: Seq<Seq<char>>) -> int
    decreases s.len(),
{
    if s.len() == 0 {
        0
    } else {
        count_new_side(s.drop_last()) + if is_new_side(s.last()) {
            1int
        } else {
            0int
        }
    }
}

/// One line of hunk body: the marker character followed by the line text.
fn prefix_line(p: char, s: &str) -> (r: String)
    ensures
        r@ == seq![p] + s@,
{
    let mut r = String::new();
    push_char(&mut r, p);
    r.append(s);
    proof {
        assert(r@ =~= seq![p] + s@);
    }
    r
}

proof fn lemma_count_push(s: Seq<Seq<char>>, l: Seq<char>)
    ensures
        count_old_side(s.push(l)) == count_old_side(s) + if is_old_side(l) {
            1int
        } else {
            0int
        },
        count_new_side(s.push(l)) == count_new_side(s) + if is_new_side(l) {
            1int
        } else {
            0int
        },
{
    assert(s.push(l).drop_last() =~= s);
    assert(s.push(l).last() == l);
}

proof fn lemma_marked_empty(p: char, lines: Seq<Seq<char>>, lo: int)
    ensures
        marked_lines(p, lines, lo, lo) == Seq::<Seq<char>>::empty(),
{
    reveal(marked_lines);
}

proof fn lemma_marked_push(p: char, lines: Seq<Seq<char>>, lo: int, hi: int)
    requires
        lo <= hi,
    ensures
        marked_lines(p, lines, lo, hi + 1) == marked_lines(p, lines, lo, hi).push(
            seq![p] + lines[hi],
        ),
{
    reveal(marked_lines);
}

proof fn lemma_edits_body_suffix_empty(es: Seq<UnifiedEdit>, oi: int, old: Seq<Seq<char>>, new: Seq<
    Seq<char>,
>)
    ensures
        edits_body(es.subrange(es.len() as int, es.len() as int), oi, old, new) == Seq::<
            Seq<char>,
        >::empty(),
{
    reveal(edits_body);
    assert(es.subrange(es.len() as int, es.len() as int).len() == 0);
}

proof fn lemma_edits_body_step(
    es: Seq<UnifiedEdit>,
    j: int,
    oi: int,
    old: Seq<Seq<char>>,
    new: Seq<Seq<char>>,
)
    requires
        0 <= j < es.len(),
    ensures
        edits_body(es.subrange(j, es.len() as int), oi, old, new) == marked_lines(
            ' ',
            old,
            oi,
            es[j].old_start as int,
        ) + marked_lines('-', old, es[j].old_start as int, es[j].old_end as int) + marked_lines(
            '+',
            new,
            es[j].new_start as int,
            es[j].new_end as int,
        ) + edits_body(es.subrange(j + 1, es.len() as int), es[j].old_end as int, old, new),
{
    reveal(edits_body);
    assert(es.subrange(j, es.len() as int)[0] == es[j]);
    assert(es.subrange(j, es.len() as int).subrange(
        1,
        es.len() - j,
    ) =~= es.subrange(j + 1, es.len() as int));
}

proof fn lemma_body_step_reassemble(
    es: Seq<UnifiedEdit>,
    j: int,
    hstart: int,
    oi0: int,
    old: Seq<Seq<char>>,
    new: Seq<Seq<char>>,
    body0: Seq<Seq<char>>,
    bodyv: Seq<Seq<char>>,
)
    requires
        0 <= j < es.len(),
        edits_body(es, hstart, old, new) == body0 + edits_body(
            es.subrange(j, es.len() as int),
            oi0,
            old,
            new,
        ),
        bodyv == body0 + marked_lines(' ', old, oi0, es[j].old_start as int) + marked_lines(
            '-',
            old,
            es[j].old_start as int,
            es[j].old_end as int,
        ) + marked_lines('+', new, es[j].new_start as int, es[j].new_end as int),
    ensures
        edits_body(es, hstart, old, new) == bodyv + edits_body(
            es.subrange(j + 1, es.len() as int),
            es[j].old_end as int,
            old,
            new,
        ),
{
    lemma_edits_body_step(es, j, oi0, old, new);
    assert(edits_body(es, hstart, old, new) =~= bodyv + edits_body(
        es.subrange(j + 1, es.len() as int),
        es[j].old_end as int,
        old,
        new,
    ));
}

/// The body of one hunk: shared context, then the removed and added lines
/// of each member edit, then trailing context — exactly
/// [`hunk_body_spec`] of the hunk's data.
///
/// The counting conditions are the round-trip law: the hunk's old-side
/// width equals the number of old-side lines in the body (context plus
/// deletions), and likewise on the new side.
#[verifier::rlimit(100)]
pub fn render_hunk_body(h: &UnifiedHunk, old_lines: &Vec<String>, new_lines: &Vec<String>) -> (body:
    Vec<String>)
    requires
        hunk_renderable(*h, old_lines@.len() as int, new_lines@.len() as int),
    ensures
        body.deep_view() == hunk_body_spec(
            hunk_model(*h),
            old_lines.deep_view(),
            new_lines.deep_view(),
        ),
        count_old_side(body.deep_view()) == h.old_end - h.old_start,
        count_new_side(body.deep_view()) == h.new_end - h.new_start,
        forall|k: int|
            0 <= k < body@.len() ==> is_old_side(#[trigger] body.deep_view()[k]) || is_new_side(
                body.deep_view()[k],
            ),
{
    let ghost es = h.edits@;
    let ghost big_o = old_lines.deep_view();
    let ghost big_n = new_lines.deep_view();
    let mut body: Vec<String> = Vec::new();
    let mut old_i: usize = h.old_start;
    let mut new_i: usize = h.new_start;
    let mut j: usize = 0;
    proof {
        assert(body.deep_view() =~= Seq::<Seq<char>>::empty());
        assert(es.subrange(0, es.len() as int) =~= es);
        assert(edits_body(es, h.old_start as int, big_o, big_n) =~= body.deep_view() + edits_body(
            es.subrange(0, es.len() as int),
            old_i as int,
            big_o,
            big_n,
        ));
    }
    while j < h.edits.len()
        invariant
            es == h.edits@,
            big_o == old_lines.deep_view(),
            big_n == new_lines.deep_view(),
            hunk_renderable(*h, old_lines@.len() as int, new_lines@.len() as int),
            j <= es.len(),
            j == 0 ==> old_i == h.old_start && new_i == h.new_start,
            j > 0 ==> old_i == es[j - 1].old_end && new_i == es[j - 1].new_end,
            count_old_side(body.deep_view()) == old_i - h.old_start,
            count_new_side(body.deep_view()) == new_i - h.new_start,
            edits_body(es, h.old_start as int, big_o, big_n) == body.deep_view() + edits_body(
                es.subrange(j as int, es.len() as int),
                old_i as int,
                big_o,
                big_n,
            ),
            forall|k: int|
                0 <= k < body@.len() ==> is_old_side(#[trigger] body.deep_view()[k])
                    || is_new_side(body.deep_view()[k]),
        decreases es.len() - j,
    {
        let ghost e_spec = es[j as int];
        let ghost body0 = body.deep_view();
        let ghost oi0 = old_i as int;
        let e = h.edits[j];
        proof {
            assert(e == e_spec);
            assert(edit_wf(e_spec, old_lines@.len() as int, new_lines@.len() as int));
            if j == 0 {
                assert(e_spec.old_start - old_i == e_spec.new_start - new_i);
            } else {
                assert(es[j - 1].old_end <= es[j as int].old_start);
                assert(es[j as int].old_start - es[j - 1].old_end == es[j as int].new_start
                    - es[j - 1].new_end);
            }
            lemma_marked_empty(' ', big_o, oi0);
        }
        while old_i < e.old_start
            invariant
                big_o == old_lines.deep_view(),
                oi0 <= old_i <= e.old_start <= old_lines@.len(),
                e.old_start - old_i == e.new_start - new_i,
                count_old_side(body.deep_view()) == old_i - h.old_start,
                count_new_side(body.deep_view()) == new_i - h.new_start,
                body.deep_view() == body0 + marked_lines(' ', big_o, oi0, old_i as int),
                forall|k: int|
                    0 <= k < body@.len() ==> is_old_side(#[trigger] body.deep_view()[k])
                        || is_new_side(body.deep_view()[k]),
            decreases e.old_start - old_i,
        {
            let ghost before = body.deep_view();
            let line = prefix_line(' ', old_lines[old_i].as_str());
            body.push(line);
            old_i = old_i + 1;
            new_i = new_i + 1;
            proof {
                assert(body.deep_view() =~= before.push(seq![' '] + old_lines@[old_i - 1]@));
                lemma_count_push(before, seq![' '] + old_lines@[old_i - 1]@);
                lemma_marked_push(' ', big_o, oi0, old_i - 1);
                assert(big_o[old_i - 1] == old_lines@[old_i - 1]@);
            }
        }
        let ghost ctx_part = marked_lines(' ', big_o, oi0, e_spec.old_start as int);
        let ghost body1 = body.deep_view();
        proof {
            lemma_marked_empty('-', big_o, e_spec.old_start as int);
            assert(body1 == body0 + ctx_part);
        }
        while old_i < e.old_end
            invariant
                big_o == old_lines.deep_view(),
                e_spec == e,
                e.old_start <= old_i <= e.old_end <= old_lines@.len(),
                new_i == e.new_start,
                count_old_side(body.deep_view()) == old_i - h.old_start,
                count_new_side(body.deep_view()) == new_i - h.new_start,
                body.deep_view() == body1 + marked_lines(
                    '-',
                    big_o,
                    e_spec.old_start as int,
                    old_i as int,
                ),
                forall|k: int|
                    0 <= k < body@.len() ==> is_old_side(#[trigger] body.deep_view()[k])
                        || is_new_side(body.deep_view()[k]),
            decreases e.old_end - old_i,
        {
            let ghost before = body.deep_view();
            let line = prefix_line('-', old_lines[old_i].as_str());
            body.push(line);
            old_i = old_i + 1;
            proof {
                assert(body.deep_view() =~= before.push(seq!['-'] + old_lines@[old_i - 1]@));
                lemma_count_push(before, seq!['-'] + old_lines@[old_i - 1]@);
                lemma_marked_push('-', big_o, e_spec.old_start as int, old_i - 1);
                assert(big_o[old_i - 1] == old_lines@[old_i - 1]@);
            }
        }
        let ghost del_part = marked_lines('-', big_o, e_spec.old_start as int, e_spec.old_end as int);
        let ghost body2 = body.deep_view();
        proof {
            lemma_marked_empty('+', big_n, e_spec.new_start as int);
            assert(body2 == body1 + del_part);
        }
        while new_i < e.new_end
            invariant
                big_n == new_lines.deep_view(),
                e_spec == e,
                old_i == e.old_end,
                e.new_start <= new_i <= e.new_end <= new_lines@.len(),
                count_old_side(body.deep_view()) == old_i - h.old_start,
                count_new_side(body.deep_view()) == new_i - h.new_start,
                body.deep_view() == body2 + marked_lines(
                    '+',
                    big_n,
                    e_spec.new_start as int,
                    new_i as int,
                ),
                forall|k: int|
                    0 <= k < body@.len() ==> is_old_side(#[trigger] body.deep_view()[k])
                        || is_new_side(body.deep_view()[k]),
            decreases e.new_end - new_i,
        {
            let ghost before = body.deep_view();
            let line = prefix_line('+', new_lines[new_i].as_str());
            body.push(line);
            new_i = new_i + 1;
            proof {
                assert(body.deep_view() =~= before.push(seq!['+'] + new_lines@[new_i - 1]@));
                lemma_count_push(before, seq!['+'] + new_lines@[new_i - 1]@);
                lemma_marked_push('+', big_n, e_spec.new_start as int, new_i - 1);
                assert(big_n[new_i - 1] == new_lines@[new_i - 1]@);
            }
        }
        proof {
            assert(body.deep_view() =~= body0 + marked_lines(
                ' ',
                big_o,
                oi0,
                e_spec.old_start as int,
            ) + marked_lines('-', big_o, e_spec.old_start as int, e_spec.old_end as int)
                + marked_lines('+', big_n, e_spec.new_start as int, e_spec.new_end as int));
            lemma_body_step_reassemble(
                es,
                j as int,
                h.old_start as int,
                oi0,
                big_o,
                big_n,
                body0,
                body.deep_view(),
            );
        }
        j = j + 1;
    }
    proof {
        assert(es.last() == es[es.len() - 1]);
        assert(old_i == es.last().old_end && new_i == es.last().new_end);
        assert(h.old_end - old_i == h.new_end - new_i);
        lemma_edits_body_suffix_empty(es, old_i as int, big_o, big_n);
        assert(edits_body(es, h.old_start as int, big_o, big_n) =~= body.deep_view());
        lemma_marked_empty(' ', big_o, old_i as int);
    }
    let ghost tail0 = body.deep_view();
    let ghost ti0 = old_i as int;
    while old_i < h.old_end
        invariant
            big_o == old_lines.deep_view(),
            ti0 <= old_i,
            old_i <= h.old_end <= old_lines@.len(),
            h.old_end - old_i == h.new_end - new_i,
            count_old_side(body.deep_view()) == old_i - h.old_start,
            count_new_side(body.deep_view()) == new_i - h.new_start,
            body.deep_view() == tail0 + marked_lines(' ', big_o, ti0, old_i as int),
            forall|k: int|
                0 <= k < body@.len() ==> is_old_side(#[trigger] body.deep_view()[k])
                    || is_new_side(body.deep_view()[k]),
        decreases h.old_end - old_i,
    {
        let ghost before = body.deep_view();
        let line = prefix_line(' ', old_lines[old_i].as_str());
        body.push(line);
        old_i = old_i + 1;
        new_i = new_i + 1;
        proof {
            assert(body.deep_view() =~= before.push(seq![' '] + old_lines@[old_i - 1]@));
            lemma_count_push(before, seq![' '] + old_lines@[old_i - 1]@);
            lemma_marked_push(' ', big_o, ti0, old_i - 1);
            assert(big_o[old_i - 1] == old_lines@[old_i - 1]@);
        }
    }
    proof {
        assert(hunk_model(*h).edits == es);
        assert(body.deep_view() =~= hunk_body_spec(hunk_model(*h), big_o, big_n));
    }
    body
}

/// The characters of a hunk header line.
pub open spec fn hunk_header_seq(op: nat, oc: nat, np: nat, nc: nat) -> Seq<char> {
    seq!['@', '@', ' ', '-'] + dec_seq(op) + seq![','] + dec_seq(oc) + seq![' ', '+'] + dec_seq(np)
        + seq![','] + dec_seq(nc) + seq![' ', '@', '@']
}

/// The reported start position of a hunk side: one-based, except that an
/// empty side is reported at its zero-based insertion point.
pub open spec fn header_pos(start: int, count: int) -> int {
    if count == 0 {
        start
    } else {
        start + 1
    }
}

/// The header line of a hunk.
pub fn hunk_header(h: &UnifiedHunk) -> (r: String)
    requires
        h.old_start <= h.old_end,
        h.new_start <= h.new_end,
    ensures
        r@ == hunk_header_seq(
            header_pos(h.old_start as int, h.old_end - h.old_start) as nat,
            (h.old_end - h.old_start) as nat,
            header_pos(h.new_start as int, h.new_end - h.new_start) as nat,
            (h.new_end - h.new_start) as nat,
        ),
{
    let old_count: usize = h.old_end - h.old_start;
    let new_count: usize = h.new_end - h.new_start;
    let old_pos: usize = if old_count == 0 {
        h.old_start
    } else {
        h.old_start + 1
    };
    let new_pos: usize = if new_count == 0 {
        h.new_start
    } else {
        h.new_start + 1
    };
    let mut r = String::new();
    push_char(&mut r, '@');
    push_char(&mut r, '@');
    push_char(&mut r, ' ');
    push_char(&mut r, '-');
    push_dec(&mut r, old_pos);
    push_char(&mut r, ',');
    push_dec(&mut r, old_count);
    push_char(&mut r, ' ');
    push_char(&mut r, '+');
    push_dec(&mut r, new_pos);
    push_char(&mut r, ',');
    push_dec(&mut r, new_count);
    push_char(&mut r, ' ');
    push_char(&mut r, '@');
    push_char(&mut r, '@');
    proof {
        assert(r@ =~= hunk_header_seq(
            header_pos(h.old_start as int, h.old_end - h.old_start) as nat,
            (h.old_end - h.old_start) as nat,
            header_pos(h.new_start as int, h.new_end - h.new_start) as nat,
            (h.new_end - h.new_start) as nat,
        ));
    }
    r
}

proof fn lemma_hunks_render_snoc(
    hs: Seq<HunkModel>,
    k: int,
    old: Seq<Seq<char>>,
    new: Seq<Seq<char>>,
)
    requires
        0 <= k < hs.len(),
    ensures
        hunks_render(hs.subrange(0, k + 1), old, new) == hunks_render(hs.subrange(0, k), old, new)
            + hunk_render(hs[k], old, new),
{
    reveal(hunks_render);
    assert(hs.subrange(0, k + 1).drop_last() =~= hs.subrange(0, k));
    assert(hs.subrange(0, k + 1).last() == hs[k]);
}

/// Renders the unified-diff hunks for an edit script over two line
/// sequences: exactly [`rendered_hunks`] of the script is appended, a
/// header line and a body for each merged window. With no edits, nothing
/// is appended.
#[verifier::rlimit(60)]
pub fn emit_unified_hunks(
    lines: &mut Vec<String>,
    old_lines: &Vec<String>,
    new_lines: &Vec<String>,
    edits: &Vec<UnifiedEdit>,
    context: usize,
)
    requires
        edits_wf(edits@, old_lines@.len() as int, new_lines@.len() as int),
    ensures
        final(lines).deep_view() == old(lines).deep_view() + rendered_hunks(
            edits@,
            context as int,
            old_lines.deep_view(),
            new_lines.deep_view(),
        ),
        edits@.len() == 0 ==> final(lines)@ == old(lines)@,
        final(lines)@.len() >= old(lines)@.len(),
        forall|k: int| 0 <= k < old(lines)@.len() ==> final(lines)@[k] == #[trigger] old(
            lines,
        )@[k],
        edits@.len() > 0 ==> final(lines)@.len() > old(lines)@.len(),
{
    let ghost big_o = old_lines.deep_view();
    let ghost big_n = new_lines.deep_view();
    if edits.len() == 0 {
        proof {
            assert(rendered_hunks(edits@, context as int, big_o, big_n)
                =~= Seq::<Seq<char>>::empty()) by {
                reveal(merged_hunks);
                reveal(hunks_render);
            }
            assert(lines.deep_view() =~= lines.deep_view() + rendered_hunks(
                edits@,
                context as int,
                big_o,
                big_n,
            ));
        }
        return ;
    }
    let hunks = merge_hunks(edits, context, old_lines.len(), new_lines.len());
    let ghost hms = hunk_models(hunks@);
    proof {
        if hunks@.len() == 0 {
            assert(edits_of(hunks@) =~= Seq::<UnifiedEdit>::empty());
        }
        assert(big_o.len() == old_lines@.len() && big_n.len() == new_lines@.len());
        assert(hms == merged_hunks(edits@, context as int, big_o.len() as int, big_n.len() as int));
        assert(hunks_render(hms.subrange(0, 0), big_o, big_n) =~= Seq::<Seq<char>>::empty()) by {
            reveal(hunks_render);
        }
        assert(lines.deep_view() =~= old(lines).deep_view() + hunks_render(
            hms.subrange(0, 0),
            big_o,
            big_n,
        ));
    }
    let mut k: usize = 0;
    while k < hunks.len()
        invariant
            big_o == old_lines.deep_view(),
            big_n == new_lines.deep_view(),
            hms == hunk_models(hunks@),
            hms.len() == hunks@.len(),
            hunks@.len() > 0,
            k <= hunks@.len(),
            forall|t: int|
                0 <= t < hunks@.len() ==> hunk_renderable(
                    #[trigger] hunks@[t],
                    old_lines@.len() as int,
                    new_lines@.len() as int,
                ),
            lines@.len() >= old(lines)@.len(),
            k > 0 ==> lines@.len() > old(lines)@.len(),
            lines.deep_view() == old(lines).deep_view() + hunks_render(
                hms.subrange(0, k as int),
                big_o,
                big_n,
            ),
            forall|t: int| 0 <= t < old(lines)@.len() ==> lines@[t] == #[trigger] old(
                lines,
            )@[t],
        decreases hunks@.len() - k,
    {
        let h = &hunks[k];
        proof {
            assert(hunk_renderable(hunks@[k as int], old_lines@.len() as int, new_lines@.len() as int));
            assert(h.old_end <= old_lines@.len());
            assert(h.new_end <= new_lines@.len());
        }
        let ghost before = lines.deep_view();
        let header = hunk_header(h);
        lines.push(header);
        let body = render_hunk_body(h, old_lines, new_lines);
        proof {
            assert(lines.deep_view() =~= before.push(
                hunk_render(hms[k as int], big_o, big_n)[0],
            )) by {
                assert(hms[k as int] == hunk_model(hunks@[k as int]));
            }
        }
        let ghost mid = lines.deep_view();
        let mut b: usize = 0;
        proof {
            assert(body.deep_view().subrange(0, 0) =~= Seq::<Seq<char>>::empty());
            assert(lines.deep_view() =~= mid + body.deep_view().subrange(0, 0));
        }
        while b < body.len()
            invariant
                b <= body@.len(),
                body@.len() == body.deep_view().len(),
                lines@.len() > old(lines)@.len(),
                lines.deep_view() == mid + body.deep_view().subrange(0, b as int),
                forall|t: int| 0 <= t < old(lines)@.len() ==> lines@[t] == #[trigger] old(
                    lines,
                )@[t],
            decreases body@.len() - b,
        {
            let line = body[b].clone();
            proof {
                assert(line@ == body.deep_view()[b as int]);
            }
            let ghost before_push = lines.deep_view();
            lines.push(line);
            b = b + 1;
            proof {
                assert(lines.deep_view() =~= before_push.push(body.deep_view()[b - 1]));
                assert(lines.deep_view() =~= mid + body.deep_view().subrange(0, b as int));
            }
        }
        proof {
            assert(body.deep_view().subrange(0, body.deep_view().len() as int)
                =~= body.deep_view());
            lemma_hunks_render_snoc(hms, k as int, big_o, big_n);
            assert(hms[k as int] == hunk_model(hunks@[k as int]));
            assert(hunk_render(hms[k as int], big_o, big_n) =~= seq![
                hunk_render(hms[k as int], big_o, big_n)[0],
            ] + body.deep_view());
            assert(lines.deep_view() =~= old(lines).deep_view() + hunks_render(
                hms.subrange(0, k + 1),
                big_o,
                big_n,
            ));
        }
        k = k + 1;
    }
    proof {
        assert(hms.subrange(0, hms.len() as int) =~= hms);
        assert(rendered_hunks(edits@, context as int, big_o, big_n) == hunks_render(
            hms,
            big_o,
            big_n,
        ));
    }
}

/// The kind of change a file patch describes.
#[derive(Clone, Copy, PartialEq, Eq)]
pub enum ChangeKind {
    Added,
    Deleted,
    Modified,
}

/// What the line diff computes for two line sequences; it depends on the
/// lines alone, on every machine.
pub uninterp spec fn line_diff_of(old: Seq<Seq<char>>, new: Seq<Seq<char>>) -> Seq<UnifiedEdit>;

/// Relies on `gix_diff::blob::Diff::compute` with the histogram algorithm,
/// over the two line sequences interned one line per token, a
/// deterministic function of the line contents alone. Its hunk iterator
/// reports each changed range once, in ascending order, the ranges
/// separated by at least one unchanged line, with the unchanged gaps
/// before, between and after the changes of equal length on both sides,
/// which is exactly [`edits_wf`]. The algorithm aborts past two billion
/// lines a side, which the bound on the inputs rules out.
#[verifier::external_body]
pub(crate) fn diff_line_ranges(old_lines: &Vec<String>, new_lines: &Vec<String>) -> (edits: Vec<
    UnifiedEdit,
>)
    requires
        old_lines@.len() < 0x7fffffff,
        new_lines@.len() < 0x7fffffff,
    ensures
        edits@ == line_diff_of(old_lines.deep_view(), new_lines.deep_view()),
        edits_wf(edits@, old_lines@.len() as int, new_lines@.len() as int),
{
    let mut input: gix_diff::blob::InternedInput<&str> = gix_diff::blob::InternedInput::default();
    input.update_before(old_lines.iter().map(|s| s.as_str()));
    input.update_after(new_lines.iter().map(|s| s.as_str()));
    let diff = gix_diff::blob::Diff::compute(gix_diff::blob::Algorithm::Histogram, &input);
    diff.hunks().map(|h| UnifiedEdit {
        old_start: h.before.start as usize,
        old_end: h.before.end as usize,
        new_start: h.after.start as usize,
        new_end: h.after.end as usize,
    }).collect()
}

/// Computes the line diff of the two sides and appends its unified hunks.
pub fn render_unified_diff(
    lines: &mut Vec<String>,
    old_lines: &Vec<String>,
    new_lines: &Vec<String>,
    context: usize,
)
    requires
        old_lines@.len() < 0x7fffffff,
        new_lines@.len() < 0x7fffffff,
    ensures
        final(lines).deep_view() == old(lines).deep_view() + rendered_hunks(
            line_diff_of(old_lines.deep_view(), new_lines.deep_view()),
            context as int,
            old_lines.deep_view(),
            new_lines.deep_view(),
        ),
        final(lines)@.len() >= old(lines)@.len(),
        forall|k: int| 0 <= k < old(lines)@.len() ==> final(lines)@[k] == #[trigger] old(
            lines,
        )@[k],
{
    let edits = diff_line_ranges(old_lines, new_lines);
    emit_unified_hunks(lines, old_lines, new_lines, &edits, context);
}

/// The `diff --git` title line of a file patch.
pub open spec fn patch_title_line(path: Seq<char>) -> Seq<char> {
    "diff --git a/"@ + path + " b/"@ + path
}

/// The old-side label line: the `a/` path, or the null device for a file
/// that did not exist before.
pub open spec fn patch_old_label(path: Seq<char>, kind: ChangeKind) -> Seq<char> {
    if kind is Added {
        "--- /dev/null"@
    } else {
        "--- a/"@ + path
    }
}

/// The new-side label line: the `b/` path, or the null device for a file
/// that no longer exists.
pub open spec fn patch_new_label(path: Seq<char>, kind: ChangeKind) -> Seq<char> {
    if kind is Deleted {
        "+++ /dev/null"@
    } else {
        "+++ b/"@ + path
    }
}

/// Renders one file's patch: the three header lines, then the unified
/// hunks of the line diff.
pub fn render_file_patch(
    lines: &mut Vec<String>,
    path: &str,
    kind: ChangeKind,
    old_lines: &Vec<String>,
    new_lines: &Vec<String>,
    context: usize,
)
    requires
        old_lines@.len() < 0x7fffffff,
        new_lines@.len() < 0x7fffffff,
    ensures
        final(lines).deep_view() == old(lines).deep_view() + seq![
            patch_title_line(path@),
            patch_old_label(path@, kind),
            patch_new_label(path@, kind),
        ] + rendered_hunks(
            line_diff_of(old_lines.deep_view(), new_lines.deep_view()),
            context as int,
            old_lines.deep_view(),
            new_lines.deep_view(),
        ),
        final(lines)@.len() >= old(lines)@.len() + 3,
        forall|k: int| 0 <= k < old(lines)@.len() ==> final(lines)@[k] == #[trigger] old(
            lines,
        )@[k],
        final(lines)@[old(lines)@.len() as int]@ == patch_title_line(path@),
        final(lines)@[old(lines)@.len() as int + 1]@ == patch_old_label(path@, kind),
        final(lines)@[old(lines)@.len() as int + 2]@ == patch_new_label(path@, kind),
{
    let mut title = String::from_str("diff --git a/");
    title.append(path);
    title.append(" b/");
    title.append(path);
    let old_label = match kind {
        ChangeKind::Added => String::from_str("--- /dev/null"),
        _ => {
            let mut l = String::from_str("--- a/");
            l.append(path);
            l
        },
    };
    let new_label = match kind {
        ChangeKind::Deleted => String::from_str("+++ /dev/null"),
        _ => {
            let mut l = String::from_str("+++ b/");
            l.append(path);
            l
        },
    };
    proof {
        assert(title@ =~= patch_title_line(path@));
        assert(old_label@ =~= patch_old_label(path@, kind));
        assert(new_label@ =~= patch_new_label(path@, kind));
    }
    lines.push(title);
    lines.push(old_label);
    lines.push(new_label);
    let ghost mid = lines@;
    proof {
        assert(lines.deep_view() =~= old(lines).deep_view() + seq![
            patch_title_line(path@),
            patch_old_label(path@, kind),
            patch_new_label(path@, kind),
        ]);
    }
    render_unified_diff(lines, old_lines, new_lines, context);
    proof {
        assert(lines.deep_view() =~= old(lines).deep_view() + seq![
            patch_title_line(path@),
            patch_old_label(path@, kind),
            patch_new_label(path@, kind),
        ] + rendered_hunks(
            line_diff_of(old_lines.deep_view(), new_lines.deep_view()),
            context as int,
            old_lines.deep_view(),
            new_lines.deep_view(),
        ));
        assert(mid.len() == old(lines)@.len() + 3);
        assert(lines@.len() >= mid.len());
        assert(lines@[old(lines)@.len() as int] == mid[old(lines)@.len() as int]);
        assert(lines@[old(lines)@.len() as int + 1] == mid[old(lines)@.len() as int + 1]);
        assert(lines@[old(lines)@.len() as int + 2] == mid[old(lines)@.len() as int + 2]);
        assert forall|k: int| 0 <= k < old(lines)@.len() implies lines@[k] == old(lines)@[k] by {
            assert(lines@[k] == mid[k]);
            assert(mid[k] == old(lines)@[k]);
        }
    }
}

} // verus!
