use vstd::prelude::*;
use crate::canvas::{label_start, Canvas, Cell};
use crate::line::{bresenham_line, line_cells, MAX_SIDE};

verus! {

/// Every point lies on a `width` by `height` canvas.
pub open spec fn points_on_canvas(pts: Seq<(usize, usize)>, width: usize, height: usize) -> bool {
    forall|i: int| 0 <= i < pts.len() ==> (#[trigger] pts[i]).0 < width && pts[i].1 < height
}

/// What may stand in a cell of a drawing of `tour` with city names `names`.
pub open spec fn cell_ok(c: Cell, names: Seq<Vec<char>>, legs: int) -> bool {
    match c {
        Cell::SolutionEdge { edge, step, steps } => edge < legs && step < steps,
        Cell::Label { ch } => exists|i: int, j: int|
            0 <= i < names.len() && 0 <= j < names[i]@.len() && names[i]@[j] == ch,
        _ => true,
    }
}

/// The name of length `len` written at point `p` covers cell `(x, y)`.
pub open spec fn label_covers(p: (usize, usize), len: nat, x: int, y: int) -> bool {
    y == p.1 && label_start(p.0, len) <= x < label_start(p.0, len) + len
}

/// Cell `(x, y)` lies under the name of one of the first `upto` cities.
pub open spec fn under_label(names: Seq<Vec<char>>, pts: Seq<(usize, usize)>, upto: int, x: int, y: int) -> bool {
    exists|c: int| 0 <= c < upto && #[trigger] label_covers(pts[c], names[c]@.len(), x, y)
}

/// The cells of the line between cities `a` and `b`.
pub open spec fn pair_cells(pts: Seq<(usize, usize)>, a: int, b: int) -> Seq<(usize, usize)> {
    line_cells(pts[a].0, pts[a].1, pts[b].0, pts[b].1)
}

/// The cells of leg `e` of `tour`.
pub open spec fn leg_cells(pts: Seq<(usize, usize)>, tour: Seq<usize>, e: int) -> Seq<(usize, usize)> {
    pair_cells(pts, tour[e] as int, tour[e + 1] as int)
}

/// Every cell of the line between two of the cities counted by `done` is drawn.
pub open spec fn pairs_drawn(c: Canvas, pts: Seq<(usize, usize)>, done: spec_fn(int, int) -> bool) -> bool {
    forall|a: int, b: int, k: int|
        #![trigger pair_cells(pts, a, b)[k]]
        done(a, b) && 0 <= k < pair_cells(pts, a, b).len() && c.in_bounds(
            pair_cells(pts, a, b)[k].0 as int,
            pair_cells(pts, a, b)[k].1 as int,
        ) ==> c.at(pair_cells(pts, a, b)[k].0 as int, pair_cells(pts, a, b)[k].1 as int) != Cell::Empty
}

/// Every cell of the first `upto` legs of `tour` shows the tour.
pub open spec fn legs_drawn(c: Canvas, pts: Seq<(usize, usize)>, tour: Seq<usize>, upto: int) -> bool {
    forall|e: int, k: int|
        #![trigger leg_cells(pts, tour, e)[k]]
        0 <= e < upto && 0 <= k < leg_cells(pts, tour, e).len() && c.in_bounds(
            leg_cells(pts, tour, e)[k].0 as int,
            leg_cells(pts, tour, e)[k].1 as int,
        ) ==> c.at(leg_cells(pts, tour, e)[k].0 as int, leg_cells(pts, tour, e)[k].1 as int) is SolutionEdge
}

pub open spec fn canvas_cells_ok(c: Canvas, names: Seq<Vec<char>>, legs: int) -> bool {
    forall|x: int, y: int| c.in_bounds(x, y) ==> cell_ok(#[trigger] c.at(x, y), names, legs)
}

/// Draws the complete graph of the cities at `pts`, then the legs of `tour` over it, then
/// the city names over both.
pub fn rasterize(
    names: &Vec<Vec<char>>,
    pts: &Vec<(usize, usize)>,
    tour: &Vec<usize>,
    width: usize,
    height: usize,
) -> (r: Canvas)
    requires
        1 <= width <= MAX_SIDE,
        1 <= height <= MAX_SIDE,
        names@.len() == pts@.len(),
        points_on_canvas(pts@, width, height),
        forall|i: int| 0 <= i < tour@.len() ==> #[trigger] tour@[i] < pts@.len(),
    ensures
        r.wf(),
        r.width == width,
        r.height == height,
        canvas_cells_ok(r, names@, tour@.len() - 1),
        forall|x: int, y: int|
            r.in_bounds(x, y) && #[trigger] under_label(names@, pts@, pts@.len() as int, x, y) ==> r.at(x, y) is Label,
        forall|x: int, y: int|
            r.in_bounds(x, y) && !#[trigger] under_label(names@, pts@, pts@.len() as int, x, y) ==> {
                &&& r.at(x, y) != Cell::Empty <== exists|a: int, b: int, k: int|
                    0 <= a < b < pts@.len() && 0 <= k < pair_cells(pts@, a, b).len()
                        && #[trigger] pair_cells(pts@, a, b)[k] == (x as usize, y as usize)
                &&& r.at(x, y) is SolutionEdge <== exists|e: int, k: int|
                    0 <= e < tour@.len() - 1 && 0 <= k < leg_cells(pts@, tour@, e).len()
                        && #[trigger] leg_cells(pts@, tour@, e)[k] == (x as usize, y as usize)
            },
{
    let ghost legs = tour@.len() - 1;
    let ghost np = pts@.len() as int;
    let mut canvas = Canvas::new(width, height);
    let n = pts.len();
    let mut i: usize = 0;
    while i < n
        invariant
            canvas.wf(),
            canvas.width == width,
            canvas.height == height,
            n == pts@.len(),
            np == n,
            i <= n,
            points_on_canvas(pts@, width, height),
            width <= MAX_SIDE,
            height <= MAX_SIDE,
            canvas_cells_ok(canvas, names@, legs),
            pairs_drawn(canvas, pts@, |a: int, b: int| 0 <= a < i && a < b < np),
        decreases n - i,
    {
        let mut j: usize = i + 1;
        while j < n
            invariant
                canvas.wf(),
                canvas.width == width,
                canvas.height == height,
                n == pts@.len(),
                np == n,
                i < n,
                i + 1 <= j <= n,
                points_on_canvas(pts@, width, height),
                width <= MAX_SIDE,
                height <= MAX_SIDE,
                canvas_cells_ok(canvas, names@, legs),
                pairs_drawn(canvas, pts@, |a: int, b: int| (0 <= a < i && a < b < np) || (a == i && i < b < j)),
            decreases n - j,
        {
            let a = pts[i];
            let b = pts[j];
            let line = bresenham_line(a.0, a.1, b.0, b.1);
            let ghost before = canvas;
            canvas.paint_background(&line);
            proof {
                assert forall|x: int, y: int| canvas.in_bounds(x, y) implies cell_ok(
                    #[trigger] canvas.at(x, y),
                    names@,
                    legs,
                ) by {
                    assert(cell_ok(before.at(x, y), names@, legs));
                }
                let done = |aa: int, bb: int| (0 <= aa < i && aa < bb < np) || (aa == i && i < bb < j + 1);
                assert forall|aa: int, bb: int, k: int|
                    #![trigger pair_cells(pts@, aa, bb)[k]]
                    done(aa, bb) && 0 <= k < pair_cells(pts@, aa, bb).len() && canvas.in_bounds(
                        pair_cells(pts@, aa, bb)[k].0 as int,
                        pair_cells(pts@, aa, bb)[k].1 as int,
                    ) implies canvas.at(pair_cells(pts@, aa, bb)[k].0 as int, pair_cells(pts@, aa, bb)[k].1 as int)
                    != Cell::Empty by {
                    let q = pair_cells(pts@, aa, bb)[k];
                    if aa == i && bb == j {
                        assert(line@[k] == q);
                        assert(line@.contains((q.0 as int as usize, q.1 as int as usize)));
                    }
                }
            }
            j += 1;
        }
        i += 1;
    }
    let mut e: usize = 0;
    while tour.len() > 0 && e < tour.len() - 1
        invariant
            e <= tour@.len(),
            canvas.wf(),
            canvas.width == width,
            canvas.height == height,
            n == pts@.len(),
            np == n,
            points_on_canvas(pts@, width, height),
            forall|k: int| 0 <= k < tour@.len() ==> #[trigger] tour@[k] < pts@.len(),
            width <= MAX_SIDE,
            height <= MAX_SIDE,
            legs == tour@.len() - 1,
            canvas_cells_ok(canvas, names@, legs),
            pairs_drawn(canvas, pts@, |a: int, b: int| 0 <= a < np && a < b < np),
            legs_drawn(canvas, pts@, tour@, e as int),
        decreases tour@.len() - e,
    {
        let a = pts[tour[e]];
        let b = pts[tour[e + 1]];
        let line = bresenham_line(a.0, a.1, b.0, b.1);
        let ghost before = canvas;
        canvas.paint_solution(&line, e);
        proof {
            assert forall|x: int, y: int| canvas.in_bounds(x, y) implies cell_ok(
                #[trigger] canvas.at(x, y),
                names@,
                legs,
            ) by {
                assert(cell_ok(before.at(x, y), names@, legs));
                if line@.contains((x as usize, y as usize)) {
                    assert(crate::canvas::marks_last(canvas.at(x, y), e, line@, (x as usize, y as usize), line@.len() as int));
                }
            }
            let done = |aa: int, bb: int| 0 <= aa < np && aa < bb < np;
            assert forall|aa: int, bb: int, k: int|
                #![trigger pair_cells(pts@, aa, bb)[k]]
                done(aa, bb) && 0 <= k < pair_cells(pts@, aa, bb).len() && canvas.in_bounds(
                    pair_cells(pts@, aa, bb)[k].0 as int,
                    pair_cells(pts@, aa, bb)[k].1 as int,
                ) implies canvas.at(pair_cells(pts@, aa, bb)[k].0 as int, pair_cells(pts@, aa, bb)[k].1 as int)
                != Cell::Empty by {
                let q = pair_cells(pts@, aa, bb)[k];
                assert(before.at(q.0 as int, q.1 as int) != Cell::Empty);
            }
            assert forall|ee: int, k: int|
                #![trigger leg_cells(pts@, tour@, ee)[k]]
                0 <= ee < e + 1 && 0 <= k < leg_cells(pts@, tour@, ee).len() && canvas.in_bounds(
                    leg_cells(pts@, tour@, ee)[k].0 as int,
                    leg_cells(pts@, tour@, ee)[k].1 as int,
                ) implies canvas.at(leg_cells(pts@, tour@, ee)[k].0 as int, leg_cells(pts@, tour@, ee)[k].1 as int)
                is SolutionEdge by {
                let q = leg_cells(pts@, tour@, ee)[k];
                if ee == e {
                    assert(line@[k] == q);
                    assert(line@.contains((q.0 as int as usize, q.1 as int as usize)));
                } else {
                    assert(before.at(q.0 as int, q.1 as int) is SolutionEdge);
                }
            }
        }
        e += 1;
    }
    let ghost mid = canvas;
    let mut c: usize = 0;
    while c < n
        invariant
            canvas.wf(),
            canvas.width == width,
            canvas.height == height,
            mid.width == width,
            mid.height == height,
            n == pts@.len(),
            names@.len() == n,
            c <= n,
            canvas_cells_ok(canvas, names@, legs),
            forall|x: int, y: int|
                canvas.in_bounds(x, y) && #[trigger] under_label(names@, pts@, c as int, x, y) ==> canvas.at(x, y) is Label,
            forall|x: int, y: int|
                canvas.in_bounds(x, y) && !#[trigger] under_label(names@, pts@, c as int, x, y) ==> canvas.at(x, y)
                    == mid.at(x, y),
        decreases n - c,
    {
        let p = pts[c];
        let ghost before = canvas;
        canvas.paint_label(p.0, p.1, &names[c]);
        proof {
            let len = names@[c as int]@.len();
            assert forall|x: int, y: int| canvas.in_bounds(x, y) implies cell_ok(
                #[trigger] canvas.at(x, y),
                names@,
                legs,
            ) by {
                assert(cell_ok(before.at(x, y), names@, legs));
                if canvas.at(x, y) != before.at(x, y) {
                    let s = label_start(p.0, len);
                    assert(names@[c as int]@[x - s] == canvas.at(x, y)->ch);
                }
            }
            assert forall|x: int, y: int|
                canvas.in_bounds(x, y) && #[trigger] under_label(names@, pts@, c + 1, x, y) implies canvas.at(x, y) is Label by {
                if !label_covers(pts@[c as int], len, x, y) {
                    let cc = choose|cc: int| 0 <= cc < c + 1 && #[trigger] label_covers(pts@[cc], names@[cc]@.len(), x, y);
                    assert(under_label(names@, pts@, c as int, x, y));
                }
            }
            assert forall|x: int, y: int|
                canvas.in_bounds(x, y) && !#[trigger] under_label(names@, pts@, c + 1, x, y) implies canvas.at(x, y) == mid.at(x, y) by {
                assert(!label_covers(pts@[c as int], len, x, y));
                if under_label(names@, pts@, c as int, x, y) {
                    let cc = choose|cc: int| 0 <= cc < c && #[trigger] label_covers(pts@[cc], names@[cc]@.len(), x, y);
                    assert(under_label(names@, pts@, c + 1, x, y));
                }
            }
        }
        c += 1;
    }
    proof {
        assert forall|x: int, y: int|
            canvas.in_bounds(x, y) && !#[trigger] under_label(names@, pts@, pts@.len() as int, x, y) implies {
                &&& canvas.at(x, y) != Cell::Empty <== exists|a: int, b: int, k: int|
                    0 <= a < b < pts@.len() && 0 <= k < pair_cells(pts@, a, b).len()
                        && #[trigger] pair_cells(pts@, a, b)[k] == (x as usize, y as usize)
                &&& canvas.at(x, y) is SolutionEdge <== exists|e: int, k: int|
                    0 <= e < tour@.len() - 1 && 0 <= k < leg_cells(pts@, tour@, e).len()
                        && #[trigger] leg_cells(pts@, tour@, e)[k] == (x as usize, y as usize)
            } by {
            if exists|a: int, b: int, k: int|
                0 <= a < b < pts@.len() && 0 <= k < pair_cells(pts@, a, b).len()
                    && #[trigger] pair_cells(pts@, a, b)[k] == (x as usize, y as usize) {
                let (a, b, k) = choose|a: int, b: int, k: int|
                    0 <= a < b < pts@.len() && 0 <= k < pair_cells(pts@, a, b).len()
                        && #[trigger] pair_cells(pts@, a, b)[k] == (x as usize, y as usize);
                assert(mid.at(pair_cells(pts@, a, b)[k].0 as int, pair_cells(pts@, a, b)[k].1 as int) != Cell::Empty);
            }
            if exists|e: int, k: int|
                0 <= e < tour@.len() - 1 && 0 <= k < leg_cells(pts@, tour@, e).len()
                    && #[trigger] leg_cells(pts@, tour@, e)[k] == (x as usize, y as usize) {
                let (e, k) = choose|e: int, k: int|
                    0 <= e < tour@.len() - 1 && 0 <= k < leg_cells(pts@, tour@, e).len()
                        && #[trigger] leg_cells(pts@, tour@, e)[k] == (x as usize, y as usize);
                assert(mid.at(leg_cells(pts@, tour@, e)[k].0 as int, leg_cells(pts@, tour@, e)[k].1 as int) is SolutionEdge);
            }
        }
    }
    canvas
}

/// The character that shows a cell: blank, a dot for the graph, a block for the tour,
/// or the name's own character.
pub fn glyph(c: Cell) -> (r: char)
    ensures
        c == Cell::Empty ==> r == ' ',
        c == Cell::BackgroundEdge ==> r == '.',
        c is SolutionEdge ==> r == '#',
        c matches Cell::Label { ch } ==> r == ch,
{
    match c {
        Cell::Empty => ' ',
        Cell::BackgroundEdge => '.',
        Cell::SolutionEdge { .. } => '#',
        Cell::Label { ch } => ch,
    }
}

/// Clamps a computed position onto a `width` by `height` canvas.
pub fn clamp_to_canvas(x: i64, y: i64, width: usize, height: usize) -> (r: (usize, usize))
    requires
        1 <= width <= MAX_SIDE,
        1 <= height <= MAX_SIDE,
    ensures
        r.0 < width,
        r.1 < height,
        0 <= x < width ==> r.0 == x,
        x < 0 ==> r.0 == 0,
        x >= width ==> r.0 == width - 1,
        0 <= y < height ==> r.1 == y,
        y < 0 ==> r.1 == 0,
        y >= height ==> r.1 == height - 1,
{
    let cx: usize = if x < 0 {
        0
    } else if x >= width as i64 {
        width - 1
    } else {
        x as usize
    };
    let cy: usize = if y < 0 {
        0
    } else if y >= height as i64 {
        height - 1
    } else {
        y as usize
    };
    (cx, cy)
}

} // verus!
