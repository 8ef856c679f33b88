use vstd::prelude::*;
use crate::geometry::{Vec2i16, Square, covers};
use crate::render::{
    Run, Renderer, Frame, is_diff_of, in_run, touched, written, replayed, resize_post, render_post,
    stamped, blank, lemma_touched_push,
};

verus! {

/// The grid that agrees with `new` on the cells the runs touch and with `old`
/// elsewhere.
spec fn merged(old: Seq<u8>, new: Seq<u8>, runs: Seq<Run>) -> Seq<u8> {
    Seq::new(old.len(), |i: int| if touched(runs, i) { new[i] } else { old[i] })
}

proof fn lemma_replay_prefix(old: Seq<u8>, new: Seq<u8>, runs: Seq<Run>, m: int)
    requires
        old.len() == new.len(),
        0 <= m <= runs.len(),
        forall|k: int|
            #![trigger runs[k]]
            0 <= k < runs.len() ==> {
                &&& (runs[k].start as int) + runs[k].bytes@.len() <= new.len()
                &&& runs[k].bytes@ == new.subrange(runs[k].start as int, runs[k].start + runs[k].bytes@.len())
            },
    ensures
        replayed(old, runs.take(m)) == merged(old, new, runs.take(m)),
    decreases m,
{
    if m == 0 {
        assert(replayed(old, runs.take(0)) =~= merged(old, new, runs.take(0)));
    } else {
        lemma_replay_prefix(old, new, runs, m - 1);
        let pre = runs.take(m - 1);
        let r = runs[m - 1];
        assert(runs.take(m).drop_last() =~= pre);
        assert(runs.take(m) =~= pre.push(r));
        let prev = replayed(old, pre);
        assert forall|i: int| 0 <= i < old.len() implies written(prev, r)[i] == merged(old, new, runs.take(m))[i] by {
            lemma_touched_push(pre, r, i);
            if in_run(r, i) {
                assert(r.bytes@[i - r.start] == new[i]);
            }
        }
        assert(written(prev, r) =~= merged(old, new, runs.take(m)));
    }
}

/// Writing the runs of a diff onto the old grid, in order, gives the new
/// grid; and the cells the runs touch are exactly the cells that changed.
pub proof fn lemma_diff_replays(old: Seq<u8>, new: Seq<u8>, runs: Seq<Run>)
    requires
        old.len() == new.len(),
        is_diff_of(old, new, runs),
    ensures
        replayed(old, runs) == new,
        forall|i: int| 0 <= i < new.len() ==> (touched(runs, i) <==> old[i] != new[i]),
{
    lemma_replay_prefix(old, new, runs, runs.len() as int);
    assert(runs.take(runs.len() as int) =~= runs);
    assert(merged(old, new, runs) =~= new);
}

/// After a frame is rendered, writing its runs onto what the display showed
/// (the back buffer, once the repaint is applied) gives the new front buffer.
pub proof fn lemma_render_replays(s0: Renderer, dim: Vec2i16, s1: Renderer, f: Frame)
    requires
        render_post(s0, dim, s1, f),
    ensures
        replayed(s1.back(), f.runs@) == s1.front(),
{
    lemma_diff_replays(s1.back(), s1.front(), f.runs@);
}

/// A second `resize` with the same dimensions reallocates nothing, asks for
/// no repaint and changes nothing.
pub proof fn lemma_resize_idempotent(
    s0: Renderer,
    dim: Vec2i16,
    s1: Renderer,
    first: bool,
    s2: Renderer,
    second: bool,
)
    requires
        resize_post(s0, dim, s1, first),
        resize_post(s1, dim, s2, second),
    ensures
        !second,
        s2.back() == s1.back(),
        s2.front() == s1.front(),
        s2.dim() == s1.dim(),
        s2.objects() == s1.objects(),
{
    assert(dim.x * dim.y >= 0) by (nonlinear_arith)
        requires
            dim.x >= 0,
            dim.y >= 0,
    ;
}

/// A renderer fresh from `initialize` with the display's dimensions owes no
/// second full repaint on its first frame at those dimensions.
pub proof fn lemma_first_frame_no_repaint(s0: Renderer, dim: Vec2i16, s1: Renderer, f: Frame)
    requires
        dim.x >= 0,
        dim.y >= 0,
        s0.back() == blank(dim.x * dim.y),
        s0.front() == blank(dim.x * dim.y),
        render_post(s0, dim, s1, f),
    ensures
        f.repaint is None,
{
    assert(dim.x * dim.y >= 0) by (nonlinear_arith)
        requires
            dim.x >= 0,
            dim.y >= 0,
    ;
}

/// Stamping a rectangle keeps the buffer's length, and leaves every cell
/// whose index no cell of the rectangle has as it was; in particular a
/// rectangle that covers no index of the buffer changes nothing.
pub proof fn lemma_stamp_clips(buf: Seq<u8>, sq: Square, width: int)
    ensures
        stamped(buf, sq, width).len() == buf.len(),
        forall|i: int| 0 <= i < buf.len() && !covers(sq, width, i) ==> stamped(buf, sq, width)[i] == buf[i],
        (forall|i: int| 0 <= i < buf.len() ==> !covers(sq, width, i)) ==> stamped(buf, sq, width) == buf,
{
    if forall|i: int| 0 <= i < buf.len() ==> !covers(sq, width, i) {
        assert(stamped(buf, sq, width) =~= buf);
    }
}

} // verus!
