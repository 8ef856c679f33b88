use vstd::prelude::*;
use crate::geometry::{Vec2i16, Square, SPACE_CHAR, BOX_CHAR, covers, contains};

verus! {

/// A drawable rectangle. The renderer holds every drawable in its registry;
/// its owner refers to it by the handle that registration returned.
#[derive(Clone, Copy, Debug, PartialEq, Eq, Structural)]
pub struct MashedPixels {
    pub sqare: Square,
}

/// A contiguous write to the display: `bytes` go to the cells from the
/// row-major index `start` on.
#[derive(Debug)]
pub struct Run {
    pub start: usize,
    pub bytes: Vec<u8>,
}

/// The double-buffered renderer: the back buffer is being composed, the
/// front buffer holds what the display shows.
pub struct Renderer {
    terminal_dim: Vec2i16,
    back_buffer: Vec<u8>,
    front_buffer: Vec<u8>,
    objects: Vec<MashedPixels>,
}

/// A grid of `n` blank cells.
pub open spec fn blank(n: int) -> Seq<u8> {
    Seq::new(n as nat, |i: int| SPACE_CHAR)
}

/// The buffer with every cell that the rectangle covers filled.
pub open spec fn stamped(buf: Seq<u8>, sq: Square, width: int) -> Seq<u8> {
    Seq::new(buf.len(), |i: int| if covers(sq, width, i) { BOX_CHAR } else { buf[i] })
}

/// The buffer with each drawable stamped in turn.
pub open spec fn painted(buf: Seq<u8>, objs: Seq<MashedPixels>, width: int) -> Seq<u8>
    decreases objs.len(),
{
    if objs.len() == 0 {
        buf
    } else {
        stamped(painted(buf, objs.drop_last(), width), objs.last().sqare, width)
    }
}

/// The frame that the drawables make on a blank grid of `n` cells.
pub open spec fn frame(objs: Seq<MashedPixels>, width: int, n: int) -> Seq<u8> {
    painted(blank(n), objs, width)
}


/// One past the last cell that the run writes.
pub open spec fn run_end(r: Run) -> int {
    r.start + r.bytes@.len()
}

/// Whether the run writes the cell with index `i`.
pub open spec fn in_run(r: Run, i: int) -> bool {
    r.start <= i < run_end(r)
}

/// Whether some run writes the cell with index `i`.
pub open spec fn touched(runs: Seq<Run>, i: int) -> bool {
    exists|k: int| 0 <= k < runs.len() && #[trigger] in_run(runs[k], i)
}

/// `runs` are the maximal runs of cells in which `new` differs from `old`,
/// in ascending order, each carrying the new content of its cells.
pub open spec fn is_diff_of(old: Seq<u8>, new: Seq<u8>, runs: Seq<Run>) -> bool {
    &&& forall|k: int|
        #![trigger runs[k]]
        0 <= k < runs.len() ==> {
            &&& 0 < runs[k].bytes@.len()
            &&& run_end(runs[k]) <= new.len()
            &&& runs[k].bytes@ == new.subrange(runs[k].start as int, run_end(runs[k]))
        }
    &&& forall|k: int| 0 <= k < runs.len() - 1 ==> run_end(#[trigger] runs[k]) < runs[k + 1].start
    &&& forall|i: int| 0 <= i < new.len() ==> (old[i] != new[i] <==> touched(runs, i))
}

/// The grid after the run is written onto it.
pub open spec fn written(grid: Seq<u8>, r: Run) -> Seq<u8> {
    Seq::new(grid.len(), |i: int| if in_run(r, i) { r.bytes@[i - r.start] } else { grid[i] })
}

/// The grid after the runs are written onto it in order.
pub open spec fn replayed(grid: Seq<u8>, runs: Seq<Run>) -> Seq<u8>
    decreases runs.len(),
{
    if runs.len() == 0 {
        grid
    } else {
        written(replayed(grid, runs.drop_last()), runs.last())
    }
}

/// What one call of `resize` with the dimensions `dim` does to the renderer:
/// when the buffers do not both hold `dim.x * dim.y` cells, both are
/// reallocated to that length and blanked, and a full repaint is due.
pub open spec fn resize_post(s0: Renderer, dim: Vec2i16, s1: Renderer, repaint: bool) -> bool {
    let n = dim.x * dim.y;
    &&& dim.x >= 0
    &&& dim.y >= 0
    &&& s1.dim() == dim
    &&& s1.objects() == s0.objects()
    &&& repaint == (s0.back().len() != n || s0.front().len() != n)
    &&& repaint ==> s1.back() == blank(n) && s1.front() == blank(n)
    &&& !repaint ==> s1.back() == s0.back() && s1.front() == s0.front()
}


/// What the display must be sent for one frame: first, where the buffers were
/// reallocated, a full repaint from the first cell on; then the changed runs.
pub struct Frame {
    pub repaint: Option<Vec<u8>>,
    pub runs: Vec<Run>,
}

/// What one call of `render` with the dimensions `dim` does: the front buffer
/// becomes the frame of the drawables on a blank grid of `dim.x * dim.y`
/// cells; the back buffer holds what the display showed before the runs; a
/// repaint comes exactly when the buffers were reallocated, and the runs are
/// the difference between the two buffers.
pub open spec fn render_post(s0: Renderer, dim: Vec2i16, s1: Renderer, f: Frame) -> bool {
    let n = dim.x * dim.y;
    let resized = s0.back().len() != n || s0.front().len() != n;
    &&& s1.wf()
    &&& s1.dim() == dim
    &&& s1.objects() == s0.objects()
    &&& s1.front() == frame(s0.objects(), dim.x as int, n)
    &&& s1.back() == if resized { blank(n) } else { s0.front() }
    &&& (f.repaint is Some <==> resized)
    &&& f.repaint is Some ==> f.repaint->0@ == blank(n)
    &&& is_diff_of(s1.back(), s1.front(), f.runs@)
}

proof fn lemma_painted_len(buf: Seq<u8>, objs: Seq<MashedPixels>, width: int)
    ensures
        painted(buf, objs, width).len() == buf.len(),
    decreases objs.len(),
{
    if objs.len() > 0 {
        lemma_painted_len(buf, objs.drop_last(), width);
    }
}

pub(crate) proof fn lemma_touched_push(runs: Seq<Run>, r: Run, j: int)
    ensures
        touched(runs.push(r), j) <==> (touched(runs, j) || in_run(r, j)),
{
    if touched(runs.push(r), j) {
        let k = choose|k: int| 0 <= k < runs.push(r).len() && #[trigger] in_run(runs.push(r)[k], j);
        if k < runs.len() {
            assert(runs.push(r)[k] == runs[k]);
        }
    }
    if touched(runs, j) {
        let k = choose|k: int| 0 <= k < runs.len() && #[trigger] in_run(runs[k], j);
        assert(runs.push(r)[k] == runs[k]);
    }
    if in_run(r, j) {
        assert(runs.push(r)[runs.len() as int] == r);
    }
}

/// Some cell of the rectangle with index `i` lies in a row before `y`, or in
/// row `y` before column `x`.
spec fn covers_before(sq: Square, width: int, y: int, x: int, i: int) -> bool {
    exists|yy: int, xx: int|
        #[trigger] contains(sq, xx, yy) && (yy < y || (yy == y && xx < x)) && yy * width + xx == i
}

proof fn lemma_covers_before_step(sq: Square, width: int, y: int, x: int, i: int)
    requires
        contains(sq, x, y),
    ensures
        covers_before(sq, width, y, x + 1, i) <==> (covers_before(sq, width, y, x, i) || i == y
            * width + x),
{
    if covers_before(sq, width, y, x + 1, i) {
        let (yy, xx) = choose|yy: int, xx: int|
            #[trigger] contains(sq, xx, yy) && (yy < y || (yy == y && xx < x + 1)) && yy * width
                + xx == i;
        if !(yy == y && xx == x) {
            assert(contains(sq, xx, yy) && (yy < y || (yy == y && xx < x)) && yy * width + xx == i);
        }
    }
    if i == y * width + x {
        assert(contains(sq, x, y) && (y < y || (y == y && x < x + 1)) && y * width + x == i);
    }
}

proof fn lemma_covers_before_row(sq: Square, width: int, y: int, i: int)
    requires
        sq.position.y <= y,
    ensures
        covers_before(sq, width, y, sq.position.x + sq.size.x, i) <==> covers_before(
            sq,
            width,
            y + 1,
            sq.position.x as int,
            i,
        ),
{
    if covers_before(sq, width, y + 1, sq.position.x as int, i) {
        let (yy, xx) = choose|yy: int, xx: int|
            #[trigger] contains(sq, xx, yy) && (yy < y + 1 || (yy == y + 1 && xx < sq.position.x))
                && yy * width + xx == i;
        assert(contains(sq, xx, yy) && (yy < y || (yy == y && xx < sq.position.x + sq.size.x))
            && yy * width + xx == i);
    }
    if covers_before(sq, width, y, sq.position.x + sq.size.x, i) {
        let (yy, xx) = choose|yy: int, xx: int|
            #[trigger] contains(sq, xx, yy) && (yy < y || (yy == y && xx < sq.position.x
                + sq.size.x)) && yy * width + xx == i;
        assert(contains(sq, xx, yy) && (yy < y + 1 || (yy == y + 1 && xx < sq.position.x)) && yy
            * width + xx == i);
    }
}

proof fn lemma_covers_before_end(sq: Square, width: int, y: int, i: int)
    requires
        y >= sq.position.y + sq.size.y,
    ensures
        covers_before(sq, width, y, sq.position.x as int, i) <==> covers(sq, width, i),
{
    if covers(sq, width, i) {
        let (yy, xx) = choose|yy: int, xx: int| #[trigger] contains(sq, xx, yy) && yy * width + xx == i;
        assert(contains(sq, xx, yy) && (yy < y || (yy == y && xx < sq.position.x)) && yy * width
            + xx == i);
    }
}

impl MashedPixels {
    /// Registers this drawable with the renderer and returns its handle.
    pub fn initialize(&self, output: &mut Renderer) -> (handle: usize)
        requires
            old(output).objects().len() < usize::MAX,
        ensures
            handle == old(output).objects().len(),
            final(output).objects() == old(output).objects().push(*self),
            final(output).back() == old(output).back(),
            final(output).front() == old(output).front(),
            final(output).dim() == old(output).dim(),
    {
        let handle = output.objects.len();
        output.objects.push(*self);
        handle
    }

    pub fn set_pos(&mut self, pos: Vec2i16)
        ensures
            final(self).sqare.position == pos,
            final(self).sqare.size == old(self).sqare.size,
    {
        self.sqare.position = pos;
    }

    pub fn get_pos(&self) -> (r: &Vec2i16)
        ensures
            *r == self.sqare.position,
    {
        &self.sqare.position
    }

    pub fn get_size(&self) -> (r: &Vec2i16)
        ensures
            *r == self.sqare.size,
    {
        &self.sqare.size
    }
}

impl Renderer {
    /// The display dimensions the renderer last saw.
    pub closed spec fn dim(&self) -> Vec2i16 {
        self.terminal_dim
    }

    /// The buffer being composed.
    pub closed spec fn back(&self) -> Seq<u8> {
        self.back_buffer@
    }

    /// The buffer that the display shows.
    pub closed spec fn front(&self) -> Seq<u8> {
        self.front_buffer@
    }

    /// The registered drawables, in order of registration.
    pub closed spec fn objects(&self) -> Seq<MashedPixels> {
        self.objects@
    }

    /// The two buffers have the same length.
    pub open spec fn wf(&self) -> bool {
        self.back().len() == self.front().len()
    }

    /// A renderer for a display of the given dimensions: both buffers are
    /// allocated to `dim.x * dim.y` cells and blanked (clear, swap, clear),
    /// and no drawable is registered yet. The display is to be painted with
    /// the front buffer (`paint_whole_screen`) before the first frame.
    pub fn initialize(dim: Vec2i16) -> (r: Self)
        requires
            dim.x >= 0,
            dim.y >= 0,
        ensures
            r.wf(),
            r.dim() == dim,
            r.back() == blank(dim.x * dim.y),
            r.front() == blank(dim.x * dim.y),
            r.objects().len() == 0,
    {
        let mut r = Renderer {
            terminal_dim: dim,
            back_buffer: Vec::new(),
            front_buffer: Vec::new(),
            objects: Vec::new(),
        };
        let repaint = r.resize(dim);
        if !repaint {
            assert(r.back_buffer@ =~= blank(dim.x * dim.y));
            assert(r.front_buffer@ =~= blank(dim.x * dim.y));
        }
        r
    }

    /// The display dimensions the renderer last saw.
    pub fn terminal_dim(&self) -> (d: Vec2i16)
        ensures
            d == self.dim(),
    {
        self.terminal_dim
    }

    /// The buffer being composed.
    pub fn back_buffer(&self) -> (b: &Vec<u8>)
        ensures
            b@ == self.back(),
    {
        &self.back_buffer
    }

    /// The buffer that the display shows.
    pub fn front_buffer(&self) -> (b: &Vec<u8>)
        ensures
            b@ == self.front(),
    {
        &self.front_buffer
    }

    /// The number of registered drawables.
    pub fn object_count(&self) -> (n: usize)
        ensures
            n == self.objects().len(),
    {
        self.objects.len()
    }

    /// The drawable with the given handle.
    pub fn object(&self, handle: usize) -> (m: &MashedPixels)
        requires
            handle < self.objects().len(),
        ensures
            *m == self.objects()[handle as int],
    {
        &self.objects[handle]
    }

    /// Moves the drawable with the given handle.
    pub fn set_object_pos(&mut self, handle: usize, pos: Vec2i16)
        requires
            handle < old(self).objects().len(),
        ensures
            final(self).objects() == old(self).objects().update(
                handle as int,
                MashedPixels { sqare: Square { position: pos, size: old(self).objects()[handle as int].sqare.size } },
            ),
            final(self).back() == old(self).back(),
            final(self).front() == old(self).front(),
            final(self).dim() == old(self).dim(),
    {
        let mut m = self.objects[handle];
        m.set_pos(pos);
        self.objects.set(handle, m);
    }

    /// Takes the display's current dimensions; when the buffers do not fit
    /// them, reallocates both, blanks them, and reports that a full repaint
    /// is due.
    pub fn resize(&mut self, dim: Vec2i16) -> (repaint: bool)
        requires
            dim.x >= 0,
            dim.y >= 0,
        ensures
            resize_post(*old(self), dim, *final(self), repaint),
    {
        self.terminal_dim = dim;
        assert(0 <= dim.x * dim.y <= 32767 * 32767) by (nonlinear_arith)
            requires
                0 <= dim.x <= 32767,
                0 <= dim.y <= 32767,
        ;
        let d = (dim.x as usize) * (dim.y as usize);
        if d != self.back_buffer.len() || d != self.front_buffer.len() {
            self.back_buffer.resize(d, SPACE_CHAR);
            self.front_buffer.resize(d, 0);
            self.clear_whole_screen();
            self.swap_buffers();
            self.clear_whole_screen();
            true
        } else {
            false
        }
    }

    /// The bytes of a full repaint: the whole front buffer, written from the
    /// first cell on.
    pub fn paint_whole_screen(&self) -> (bytes: Vec<u8>)
        ensures
            bytes@ == self.front(),
    {
        let r = copy_range(&self.front_buffer, 0, self.front_buffer.len());
        assert(self.front_buffer@.subrange(0, self.front_buffer@.len() as int) =~= self.front_buffer@);
        r
    }

    /// A forced full repaint.
    pub fn paint_whole_screen_in_letter_a(&self) -> (bytes: Vec<u8>)
        ensures
            bytes@ == self.front(),
    {
        self.paint_whole_screen()
    }

    /// One frame: resize to the display's dimensions, compose the drawables
    /// on a blank back buffer, promote it to front, and return what the
    /// display must be sent.
    pub fn render(&mut self, dim: Vec2i16) -> (f: Frame)
        requires
            old(self).wf(),
            dim.x >= 0,
            dim.y >= 0,
        ensures
            render_post(*old(self), dim, *final(self), f),
    {
        let repaint = self.resize(dim);
        let ghost shown = self.front_buffer@;
        let full = if repaint {
            Some(self.paint_whole_screen())
        } else {
            None
        };
        self.clear_whole_screen();
        self.update_objs();
        proof {
            lemma_painted_len(blank(dim.x * dim.y), self.objects@, dim.x as int);
        }
        self.swap_buffers();
        let runs = self.steady_render();
        Frame { repaint: full, runs }
    }

    /// Fills the back buffer with the blank glyph.
    pub fn clear_whole_screen(&mut self)
        ensures
            final(self).back() == blank(old(self).back().len() as int),
            final(self).front() == old(self).front(),
            final(self).objects() == old(self).objects(),
            final(self).dim() == old(self).dim(),
    {
        let n = self.back_buffer.len();
        let mut i: usize = 0;
        while i < n
            invariant
                self.back_buffer@.len() == n,
                n == old(self).back().len(),
                i <= n,
                forall|j: int| 0 <= j < i ==> self.back_buffer@[j] == SPACE_CHAR,
                self.front_buffer == old(self).front_buffer,
                self.objects == old(self).objects,
                self.terminal_dim == old(self).terminal_dim,
            decreases n - i,
        {
            self.back_buffer.set(i, SPACE_CHAR);
            i = i + 1;
        }
        assert(self.back_buffer@ =~= blank(n as int));
    }

    /// Exchanges the two buffers without copying them.
    pub fn swap_buffers(&mut self)
        ensures
            final(self).front() == old(self).back(),
            final(self).back() == old(self).front(),
            final(self).objects() == old(self).objects(),
            final(self).dim() == old(self).dim(),
    {
        core::mem::swap(&mut self.back_buffer, &mut self.front_buffer);
    }

    /// Fills, in the back buffer, every cell whose row-major index some cell
    /// of the drawable's rectangle has; indices outside the buffer are
    /// skipped.
    pub fn stamp_obj(&mut self, index: usize)
        requires
            index < old(self).objects().len(),
        ensures
            final(self).back() == stamped(
                old(self).back(),
                old(self).objects()[index as int].sqare,
                old(self).dim().x as int,
            ),
            final(self).front() == old(self).front(),
            final(self).objects() == old(self).objects(),
            final(self).dim() == old(self).dim(),
    {
        let sq = self.objects[index].sqare;
        let ghost old_back = self.back_buffer@;
        let ghost wi = self.terminal_dim.x as int;
        let w = self.terminal_dim.x as i64;
        let n = self.back_buffer.len();
        let y0 = sq.position.y as i64;
        let y1 = y0 + sq.size.y as i64;
        let x0 = sq.position.x as i64;
        let x1 = x0 + sq.size.x as i64;
        let mut y = y0;
        while y < y1
            invariant
                y0 <= y,
                y0 < y1 ==> y <= y1,
                y0 == sq.position.y,
                y1 == sq.position.y + sq.size.y,
                x0 == sq.position.x,
                x1 == sq.position.x + sq.size.x,
                w == wi,
                -32768 <= w <= 32767,
                self.back_buffer@.len() == n,
                n == old_back.len(),
                forall|i: int|
                    0 <= i < n ==> #[trigger] self.back_buffer@[i] == if covers_before(sq, wi, y as int, x0 as int, i) {
                        BOX_CHAR
                    } else {
                        old_back[i]
                    },
                self.front_buffer == old(self).front_buffer,
                self.objects == old(self).objects,
                self.terminal_dim == old(self).terminal_dim,
            decreases y1 - y,
        {
            let mut x = x0;
            while x < x1
                invariant
                    x0 <= x,
                    x0 < x1 ==> x <= x1,
                    y0 <= y < y1,
                    y0 == sq.position.y,
                    y1 == sq.position.y + sq.size.y,
                    x0 == sq.position.x,
                    x1 == sq.position.x + sq.size.x,
                    w == wi,
                    -32768 <= w <= 32767,
                    self.back_buffer@.len() == n,
                    n == old_back.len(),
                    forall|i: int|
                        0 <= i < n ==> #[trigger] self.back_buffer@[i] == if covers_before(sq, wi, y as int, x as int, i) {
                            BOX_CHAR
                        } else {
                            old_back[i]
                        },
                    self.front_buffer == old(self).front_buffer,
                    self.objects == old(self).objects,
                    self.terminal_dim == old(self).terminal_dim,
                decreases x1 - x,
            {
                assert(-2147483648 <= y * w <= 2147483648) by (nonlinear_arith)
                    requires
                        -65536 <= y <= 65536,
                        -32768 <= w <= 32767,
                ;
                let idx = y * w + x;
                let ghost before = self.back_buffer@;
                assert(contains(sq, x as int, y as int));
                if 0 <= idx && (idx as usize) < n {
                    self.back_buffer.set(idx as usize, BOX_CHAR);
                }
                assert(forall|i: int| 0 <= i < n && i != idx ==> self.back_buffer@[i] == before[i]);
                assert forall|i: int| 0 <= i < n implies #[trigger] self.back_buffer@[i] == if covers_before(sq, wi, y as int, x + 1, i) {
                    BOX_CHAR
                } else {
                    old_back[i]
                } by {
                    lemma_covers_before_step(sq, wi, y as int, x as int, i);
                    if i == idx {
                        assert(self.back_buffer@[i] == BOX_CHAR);
                    } else {
                        assert(self.back_buffer@[i] == before[i]);
                    }
                    assert(before[i] == if covers_before(sq, wi, y as int, x as int, i) {
                        BOX_CHAR
                    } else {
                        old_back[i]
                    });
                }
                x = x + 1;
            }
            assert forall|i: int| 0 <= i < n implies #[trigger] self.back_buffer@[i] == if covers_before(sq, wi, y + 1, x0 as int, i) {
                BOX_CHAR
            } else {
                old_back[i]
            } by {
                lemma_covers_before_row(sq, wi, y as int, i);
                if x0 >= x1 {
                    assert(covers_before(sq, wi, y as int, x as int, i) <==> covers_before(sq, wi, y as int, x1 as int, i));
                }
            }
            y = y + 1;
        }
        assert forall|i: int| 0 <= i < n implies #[trigger] self.back_buffer@[i] == stamped(old_back, sq, wi)[i] by {
            lemma_covers_before_end(sq, wi, y as int, i);
        }
        assert(self.back_buffer@ =~= stamped(old_back, sq, wi));
    }

    /// Stamps every registered drawable into the back buffer, in order of
    /// registration.
    pub fn update_objs(&mut self)
        ensures
            final(self).back() == painted(old(self).back(), old(self).objects(), old(self).dim().x as int),
            final(self).front() == old(self).front(),
            final(self).objects() == old(self).objects(),
            final(self).dim() == old(self).dim(),
    {
        let ghost b0 = self.back_buffer@;
        let ghost objs = self.objects@;
        let ghost wi = self.terminal_dim.x as int;
        let n = self.objects.len();
        let mut k: usize = 0;
        while k < n
            invariant
                k <= n,
                n == objs.len(),
                self.objects@ == objs,
                self.terminal_dim == old(self).terminal_dim,
                wi == self.terminal_dim.x as int,
                self.front_buffer@ == old(self).front_buffer@,
                objs == old(self).objects@,
                b0 == old(self).back_buffer@,
                self.back_buffer@ == painted(b0, objs.take(k as int), wi),
            decreases n - k,
        {
            self.stamp_obj(k);
            assert(objs.take(k + 1).drop_last() =~= objs.take(k as int));
            assert(objs.take(k + 1).last() == objs[k as int]);
            k = k + 1;
        }
        assert(objs.take(n as int) =~= objs);
    }

    /// The maximal runs of cells in which the front buffer differs from the
    /// back buffer, each with the front buffer's content.
    pub fn steady_render(&self) -> (runs: Vec<Run>)
        requires
            self.wf(),
        ensures
            is_diff_of(self.back(), self.front(), runs@),
    {
        let old_buf = &self.back_buffer;
        let new_buf = &self.front_buffer;
        let n = new_buf.len();
        let mut runs: Vec<Run> = Vec::new();
        let mut anchor: Option<usize> = None;
        let mut i: usize = 0;
        while i < n
            invariant
                i <= n,
                n == new_buf@.len(),
                n == old_buf@.len(),
                forall|k: int|
                    #![trigger runs@[k]]
                    0 <= k < runs@.len() ==> {
                        &&& 0 < runs@[k].bytes@.len()
                        &&& run_end(runs@[k]) <= i
                        &&& runs@[k].bytes@ == new_buf@.subrange(runs@[k].start as int, run_end(runs@[k]))
                    },
                forall|k: int| 0 <= k < runs@.len() - 1 ==> run_end(#[trigger] runs@[k]) < runs@[k + 1].start,
                forall|j: int|
                    0 <= j < i ==> (old_buf@[j] != new_buf@[j] <==> (touched(runs@, j) || (anchor is Some
                        && anchor->0 <= j))),
                anchor is Some ==> {
                    &&& anchor->0 < i
                    &&& forall|j: int| anchor->0 <= j < i ==> old_buf@[j] != new_buf@[j]
                    &&& runs@.len() > 0 ==> run_end(runs@.last()) < anchor->0
                },
                anchor is None ==> (runs@.len() > 0 ==> run_end(runs@.last()) < i),
            decreases n - i,
        {
            let differs = old_buf[i] != new_buf[i];
            match anchor {
                None => {
                    if differs {
                        anchor = Some(i);
                    }
                },
                Some(a) => {
                    if !differs {
                        let bytes = copy_range(new_buf, a, i);
                        let r = Run { start: a, bytes };
                        let ghost before = runs@;
                        runs.push(r);
                        proof {
                            assert forall|j: int| 0 <= j <= i implies (old_buf@[j] != new_buf@[j] <==> touched(runs@, j)) by {
                                lemma_touched_push(before, r, j);
                            }
                        }
                        anchor = None;
                    }
                },
            }
            i = i + 1;
        }
        if let Some(a) = anchor {
            let bytes = copy_range(new_buf, a, n);
            let r = Run { start: a, bytes };
            let ghost before = runs@;
            runs.push(r);
            proof {
                assert forall|j: int| 0 <= j < n implies (old_buf@[j] != new_buf@[j] <==> touched(runs@, j)) by {
                    lemma_touched_push(before, r, j);
                }
            }
        }
        runs
    }
}

/// A frame-by-frame renderer.
pub trait Render {
    /// Whether the renderer is ready for the next frame.
    spec fn ready(&self) -> bool;

    /// A forced full repaint: the bytes of the whole displayed grid.
    fn paint_whole_screen_in_letter_a(&self) -> Vec<u8>;

    /// Renders one frame for a display of the given dimensions and returns
    /// what the display must be sent.
    fn render(&mut self, dim: Vec2i16) -> (f: Frame)
        requires
            old(self).ready(),
            dim.x >= 0,
            dim.y >= 0,
        ensures
            final(self).ready(),
    ;
}

impl Render for Renderer {
    open spec fn ready(&self) -> bool {
        self.wf()
    }

    fn paint_whole_screen_in_letter_a(&self) -> Vec<u8> {
        Renderer::paint_whole_screen_in_letter_a(self)
    }

    fn render(&mut self, dim: Vec2i16) -> (f: Frame) {
        Renderer::render(self, dim)
    }
}

/// A copy of the cells `start .. end` of the buffer.
fn copy_range(v: &Vec<u8>, start: usize, end: usize) -> (r: Vec<u8>)
    requires
        start <= end <= v@.len(),
    ensures
        r@ == v@.subrange(start as int, end as int),
{
    let mut r: Vec<u8> = Vec::new();
    let mut i = start;
    while i < end
        invariant
            start <= i <= end,
            end <= v@.len(),
            r@ == v@.subrange(start as int, i as int),
        decreases end - i,
    {
        r.push(v[i]);
        assert(r@ =~= v@.subrange(start as int, i + 1));
        i = i + 1;
    }
    r
}

} // verus!
