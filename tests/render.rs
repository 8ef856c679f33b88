use sneak::geometry::{cell_of_index, Square, Vec2i16, BOX_CHAR, SPACE_CHAR};
use sneak::render::{Frame, MashedPixels, Render, Renderer, Run};

fn v(x: i16, y: i16) -> Vec2i16 {
    Vec2i16 { x, y }
}

fn drawable(px: i16, py: i16, sx: i16, sy: i16) -> MashedPixels {
    MashedPixels { sqare: Square { position: v(px, py), size: v(sx, sy) } }
}

fn replay(grid: &mut Vec<u8>, runs: &[Run]) {
    for r in runs {
        for (k, b) in r.bytes.iter().enumerate() {
            grid[r.start + k] = *b;
        }
    }
}

#[test]
fn stamp_two_by_two_gives_two_runs() {
    let mut r = Renderer::initialize(v(10, 5));
    assert_eq!(r.back_buffer(), &vec![SPACE_CHAR; 50]);
    assert_eq!(r.paint_whole_screen(), vec![SPACE_CHAR; 50]);
    let first = r.render(v(10, 5));
    assert!(first.repaint.is_none());
    assert!(first.runs.is_empty());
    drawable(1, 1, 2, 2).initialize(&mut r);
    let f = r.render(v(10, 5));
    assert!(f.repaint.is_none());
    assert_eq!(f.runs.len(), 2);
    assert_eq!(f.runs[0].start, 11);
    assert_eq!(f.runs[0].bytes, vec![BOX_CHAR, BOX_CHAR]);
    assert_eq!(f.runs[1].start, 21);
    assert_eq!(f.runs[1].bytes, vec![BOX_CHAR, BOX_CHAR]);
    assert_eq!(cell_of_index(f.runs[0].start, 10), v(1, 1));
    assert_eq!(cell_of_index(f.runs[1].start, 10), v(1, 2));
}

#[test]
fn unchanged_frame_emits_nothing() {
    for (w, h) in [(1i16, 1i16), (10, 5), (33, 7), (80, 25)] {
        let mut r = Renderer::initialize(v(w, h));
        drawable(0, 0, 3, 2).initialize(&mut r);
        drawable(w / 2, h / 2, 1, 1).initialize(&mut r);
        r.render(v(w, h));
        let f = r.render(v(w, h));
        assert!(f.repaint.is_none());
        assert!(f.runs.is_empty());
        assert_eq!(r.back_buffer(), r.front_buffer());
    }
}

#[test]
fn fully_clipped_drawable_writes_nothing() {
    let mut r = Renderer::initialize(v(10, 10));
    r.resize(v(10, 10));
    let h = drawable(-1, -1, 1, 1).initialize(&mut r);
    r.stamp_obj(h);
    assert_eq!(r.back_buffer(), &vec![SPACE_CHAR; 100]);
    let f = r.render(v(10, 10));
    assert!(f.runs.is_empty());
}

#[test]
fn partly_clipped_drawable_keeps_in_range_cells() {
    let mut r = Renderer::initialize(v(10, 10));
    r.resize(v(10, 10));
    let h = drawable(0, 9, 1, 3).initialize(&mut r);
    r.stamp_obj(h);
    let back = r.back_buffer();
    assert_eq!(back.len(), 100);
    for (i, c) in back.iter().enumerate() {
        assert_eq!(*c, if i == 90 { BOX_CHAR } else { SPACE_CHAR });
    }
}

#[test]
fn resize_to_larger_repaints_once() {
    let mut r = Renderer::initialize(v(10, 10));
    assert_eq!(r.front_buffer().len(), 100);
    let a = r.render(v(10, 10));
    assert!(a.repaint.is_none());
    let b = r.render(v(20, 20));
    assert_eq!(b.repaint, Some(vec![SPACE_CHAR; 400]));
    assert_eq!(r.back_buffer().len(), 400);
    assert_eq!(r.front_buffer().len(), 400);
    let c = r.render(v(20, 20));
    assert!(c.repaint.is_none());
}

#[test]
fn resize_twice_is_idempotent() {
    let mut r = Renderer::initialize(v(1, 1));
    assert!(r.resize(v(7, 3)));
    let back = r.back_buffer().clone();
    let front = r.front_buffer().clone();
    assert!(!r.resize(v(7, 3)));
    assert_eq!(r.back_buffer(), &back);
    assert_eq!(r.front_buffer(), &front);
    assert_eq!(back.len(), 21);
}

#[test]
fn swap_exchanges_buffers() {
    let mut r = Renderer::initialize(v(4, 2));
    r.resize(v(4, 2));
    drawable(0, 0, 2, 1).initialize(&mut r);
    r.update_objs();
    let back = r.back_buffer().clone();
    let front = r.front_buffer().clone();
    assert_ne!(back, front);
    r.swap_buffers();
    assert_eq!(r.front_buffer(), &back);
    assert_eq!(r.back_buffer(), &front);
}

#[test]
fn replaying_runs_gives_new_frame() {
    let mut r = Renderer::initialize(v(12, 6));
    let a = drawable(1, 1, 3, 2).initialize(&mut r);
    let b = drawable(8, 0, 2, 6).initialize(&mut r);
    r.render(v(12, 6));
    for step in 0..5i16 {
        let shown = r.front_buffer().clone();
        r.set_object_pos(a, v(1 + step, 1 + step % 3));
        r.set_object_pos(b, v(8 - step, 0));
        let f = r.render(v(12, 6));
        assert!(f.repaint.is_none());
        let mut grid = shown.clone();
        replay(&mut grid, &f.runs);
        assert_eq!(&grid, r.front_buffer());
        let mut touched = vec![false; grid.len()];
        for run in &f.runs {
            assert!(!run.bytes.is_empty());
            for k in 0..run.bytes.len() {
                touched[run.start + k] = true;
            }
        }
        for i in 0..grid.len() {
            assert_eq!(touched[i], shown[i] != r.front_buffer()[i]);
        }
    }
}

#[test]
fn single_changed_cell_is_one_run() {
    let mut r = Renderer::initialize(v(5, 5));
    r.render(v(5, 5));
    drawable(4, 4, 1, 1).initialize(&mut r);
    let f = r.render(v(5, 5));
    assert_eq!(f.runs.len(), 1);
    assert_eq!(f.runs[0].start, 24);
    assert_eq!(f.runs[0].bytes, vec![BOX_CHAR]);
}

#[test]
fn full_change_is_one_run() {
    let mut r = Renderer::initialize(v(6, 3));
    r.render(v(6, 3));
    drawable(0, 0, 6, 3).initialize(&mut r);
    let f = r.render(v(6, 3));
    assert_eq!(f.runs.len(), 1);
    assert_eq!(f.runs[0].start, 0);
    assert_eq!(f.runs[0].bytes, vec![BOX_CHAR; 18]);
}

#[test]
fn full_repaint_is_front_buffer() {
    let mut r = Renderer::initialize(v(3, 2));
    drawable(0, 0, 1, 1).initialize(&mut r);
    r.render(v(3, 2));
    let mut expected = vec![SPACE_CHAR; 6];
    expected[0] = BOX_CHAR;
    assert_eq!(r.paint_whole_screen_in_letter_a(), expected);
    assert_eq!(r.paint_whole_screen(), expected);
}

#[test]
fn cell_of_index_splits_row_major() {
    assert_eq!(cell_of_index(0, 10), v(0, 0));
    assert_eq!(cell_of_index(37, 10), v(7, 3));
    assert_eq!(cell_of_index(399, 20), v(19, 19));
}

#[test]
fn drawable_accessors() {
    let mut m = drawable(3, 4, 2, 5);
    assert_eq!(*m.get_pos(), v(3, 4));
    m.set_pos(v(-1, 7));
    assert_eq!(*m.get_pos(), v(-1, 7));
    assert_eq!(*m.get_size(), v(2, 5));
}

fn frame_of<R: Render>(r: &mut R, dim: Vec2i16) -> Frame {
    r.render(dim)
}

#[test]
fn render_through_trait() {
    let mut r = Renderer::initialize(v(4, 4));
    drawable(1, 1, 1, 1).initialize(&mut r);
    let f = frame_of(&mut r, v(4, 4));
    assert!(f.repaint.is_none());
    assert_eq!(f.runs.len(), 1);
    assert_eq!(f.runs[0].start, 5);
    let mut expected = vec![SPACE_CHAR; 16];
    expected[5] = BOX_CHAR;
    assert_eq!(Render::paint_whole_screen_in_letter_a(&r), expected);
}

#[test]
fn initialize_allocates_blank_buffers() {
    let r = Renderer::initialize(v(2, 2));
    assert_eq!(r.terminal_dim(), v(2, 2));
    assert_eq!(r.back_buffer(), &vec![SPACE_CHAR; 4]);
    assert_eq!(r.front_buffer(), &vec![SPACE_CHAR; 4]);
    assert_eq!(r.object_count(), 0);
}
