use tsp_grid::canvas::{Canvas, Cell};
use tsp_grid::line::bresenham_line;
use tsp_grid::render::{clamp_to_canvas, glyph, rasterize};

#[test]
fn horizontal_line() {
    assert_eq!(bresenham_line(0, 0, 3, 0), vec![(0, 0), (1, 0), (2, 0), (3, 0)]);
}

#[test]
fn diagonal_line_reversed() {
    assert_eq!(bresenham_line(2, 2, 0, 0), vec![(2, 2), (1, 1), (0, 0)]);
}

#[test]
fn single_point_line() {
    assert_eq!(bresenham_line(5, 7, 5, 7), vec![(5, 7)]);
}

#[test]
fn shallow_line_steps_along_major_axis() {
    let pts = bresenham_line(0, 0, 4, 2);
    assert_eq!(pts, vec![(0, 0), (1, 1), (2, 1), (3, 2), (4, 2)]);
}

#[test]
fn solution_overwrites_background() {
    let mut c = Canvas::new(10, 3);
    let line = bresenham_line(0, 1, 9, 1);
    c.paint_background(&line);
    assert_eq!(c.get(4, 1), Cell::BackgroundEdge);
    c.paint_solution(&line, 2);
    assert_eq!(c.get(4, 1), Cell::SolutionEdge { edge: 2, step: 4, steps: 10 });
    c.paint_background(&line);
    assert_eq!(c.get(4, 1), Cell::SolutionEdge { edge: 2, step: 4, steps: 10 });
    assert_eq!(c.get(4, 0), Cell::Empty);
}

#[test]
fn label_is_clipped_at_both_edges() {
    let mut c = Canvas::new(4, 2);
    c.paint_label(0, 1, &"ABCD".chars().collect());
    assert_eq!(c.get(0, 1), Cell::Label { ch: 'A' });
    assert_eq!(c.get(3, 1), Cell::Label { ch: 'D' });
    let mut c = Canvas::new(4, 2);
    c.paint_label(3, 0, &"XYZ".chars().collect());
    assert_eq!(c.get(2, 0), Cell::Label { ch: 'X' });
    assert_eq!(c.get(3, 0), Cell::Label { ch: 'Y' });
    assert_eq!(c.get(1, 0), Cell::Empty);
}

#[test]
fn rasterize_layers_in_order() {
    let names: Vec<Vec<char>> = vec!["A".chars().collect(), "B".chars().collect(), "C".chars().collect()];
    let pts = vec![(1, 1), (8, 1), (1, 4)];
    let tour = vec![0, 1, 0];
    let c = rasterize(&names, &pts, &tour, 10, 6);
    assert_eq!(c.get(1, 1), Cell::Label { ch: 'A' });
    assert_eq!(c.get(8, 1), Cell::Label { ch: 'B' });
    assert_eq!(c.get(1, 4), Cell::Label { ch: 'C' });
    // The leg back from B to A is drawn last over the shared row.
    assert_eq!(c.get(4, 1), Cell::SolutionEdge { edge: 1, step: 4, steps: 8 });
    // A background-only line between A and C.
    assert_eq!(c.get(1, 2), Cell::BackgroundEdge);
    assert_eq!(c.get(9, 5), Cell::Empty);
}

#[test]
fn glyphs() {
    assert_eq!(glyph(Cell::Empty), ' ');
    assert_eq!(glyph(Cell::BackgroundEdge), '.');
    assert_eq!(glyph(Cell::SolutionEdge { edge: 0, step: 0, steps: 1 }), '#');
    assert_eq!(glyph(Cell::Label { ch: 'q' }), 'q');
}

#[test]
fn clamping_keeps_points_on_canvas() {
    assert_eq!(clamp_to_canvas(-3, 50, 80, 24), (0, 23));
    assert_eq!(clamp_to_canvas(80, -1, 80, 24), (79, 0));
    assert_eq!(clamp_to_canvas(40, 12, 80, 24), (40, 12));
}
