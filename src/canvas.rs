use vstd::prelude::*;
use crate::line::{bresenham_line, is_line, MAX_SIDE};

verus! {

/// One cell of the text canvas.
#[derive(Debug, Clone, Copy, PartialEq, Eq)]
pub enum Cell {
    Empty,
    /// On a line of the complete graph.
    BackgroundEdge,
    /// On leg `edge` of the tour, at position `step` of the `steps` cells of that leg;
    /// its place along the tour is `edge + step / steps`.
    SolutionEdge { edge: usize, step: usize, steps: usize },
    /// A character of a city's name.
    Label { ch: char },
}

/// A `width` by `height` grid of cells, stored row by row.
pub struct Canvas {
    pub width: usize,
    pub height: usize,
    pub cells: Vec<Cell>,
}

/// Position of cell `(x, y)` in row-major storage.
pub open spec fn index_of(w: int, x: int, y: int) -> int {
    y * w + x
}

proof fn lemma_index(w: int, h: int, x: int, y: int)
    requires
        0 <= x < w,
        0 <= y < h,
    ensures
        0 <= index_of(w, x, y) < w * h,
        0 <= y * w,
        h <= MAX_SIDE && w <= MAX_SIDE ==> y * w + x < MAX_SIDE * MAX_SIDE,
{
    assert(0 <= y * w + x < w * h) by (nonlinear_arith)
        requires
            0 <= x < w,
            0 <= y < h,
    ;
    assert(0 <= y * w) by (nonlinear_arith)
        requires
            0 <= x < w,
            0 <= y,
    ;
    if h <= MAX_SIDE && w <= MAX_SIDE {
        assert(w * h <= MAX_SIDE * MAX_SIDE) by (nonlinear_arith)
            requires
                0 <= w <= MAX_SIDE,
                0 <= h <= MAX_SIDE,
        ;
    }
}

proof fn lemma_index_distinct(w: int, x: int, y: int, a: int, b: int)
    requires
        0 <= x < w,
        0 <= a < w,
        0 <= y,
        0 <= b,
        (x, y) != (a, b),
    ensures
        index_of(w, x, y) != index_of(w, a, b),
{
    if y == b {
    } else if y < b {
        assert(y * w + x < b * w + a) by (nonlinear_arith)
            requires
                y < b,
                0 <= x < w,
                0 <= a,
        ;
    } else {
        assert(b * w + a < y * w + x) by (nonlinear_arith)
            requires
                b < y,
                0 <= a < w,
                0 <= x,
        ;
    }
}

impl Canvas {
    /// Sides within bounds and one cell per position.
    pub open spec fn wf(&self) -> bool {
        &&& 1 <= self.width <= MAX_SIDE
        &&& 1 <= self.height <= MAX_SIDE
        &&& self.cells@.len() == self.width * self.height
    }

    pub open spec fn in_bounds(&self, x: int, y: int) -> bool {
        0 <= x < self.width && 0 <= y < self.height
    }

    /// The cell at column `x`, row `y`.
    pub open spec fn at(&self, x: int, y: int) -> Cell {
        self.cells@[index_of(self.width as int, x, y)]
    }

    /// A canvas of empty cells.
    pub fn new(width: usize, height: usize) -> (r: Canvas)
        requires
            1 <= width <= MAX_SIDE,
            1 <= height <= MAX_SIDE,
        ensures
            r.wf(),
            r.width == width,
            r.height == height,
            forall|x: int, y: int| r.in_bounds(x, y) ==> #[trigger] r.at(x, y) == Cell::Empty,
    {
        assert(width * height <= MAX_SIDE * MAX_SIDE) by (nonlinear_arith)
            requires
                width <= MAX_SIDE,
                height <= MAX_SIDE,
        ;
        let total = width * height;
        let mut cells: Vec<Cell> = Vec::new();
        let mut i: usize = 0;
        while i < total
            invariant
                i <= total,
                cells@.len() == i,
                forall|j: int| 0 <= j < i ==> #[trigger] cells@[j] == Cell::Empty,
            decreases total - i,
        {
            cells.push(Cell::Empty);
            i += 1;
        }
        let r = Canvas { width, height, cells };
        assert forall|x: int, y: int| r.in_bounds(x, y) implies #[trigger] r.at(x, y) == Cell::Empty by {
            lemma_index(width as int, height as int, x, y);
        }
        r
    }

    /// The cell at column `x`, row `y`.
    pub fn get(&self, x: usize, y: usize) -> (r: Cell)
        requires
            self.wf(),
            self.in_bounds(x as int, y as int),
        ensures
            r == self.at(x as int, y as int),
    {
        proof {
            lemma_index(self.width as int, self.height as int, x as int, y as int);
        }
        self.cells[y * self.width + x]
    }

    /// Puts `c` at `(x, y)` and leaves every other cell as it was.
    fn put(&mut self, x: usize, y: usize, c: Cell)
        requires
            old(self).wf(),
            old(self).in_bounds(x as int, y as int),
        ensures
            final(self).wf(),
            final(self).width == old(self).width,
            final(self).height == old(self).height,
            final(self).at(x as int, y as int) == c,
            forall|a: int, b: int|
                final(self).in_bounds(a, b) && (a, b) != (x as int, y as int) ==> #[trigger] final(self).at(
                    a,
                    b,
                ) == old(self).at(a, b),
    {
        proof {
            lemma_index(self.width as int, self.height as int, x as int, y as int);
        }
        let i = y * self.width + x;
        self.cells[i] = c;
        proof {
            assert forall|a: int, b: int|
                self.in_bounds(a, b) && (a, b) != (x as int, y as int) implies #[trigger] self.at(a, b)
                == old(self).at(a, b) by {
                lemma_index(self.width as int, self.height as int, a, b);
                lemma_index_distinct(self.width as int, x as int, y as int, a, b);
            }
        }
    }
}

/// `after` is `before` with every empty cell that `line` touches made a background edge.
pub open spec fn background_painted(before: Canvas, after: Canvas, line: Seq<(usize, usize)>) -> bool {
    &&& after.wf()
    &&& after.width == before.width
    &&& after.height == before.height
    &&& forall|x: int, y: int|
        after.in_bounds(x, y) ==> #[trigger] after.at(x, y) == (if before.at(x, y) == Cell::Empty
            && line.contains((x as usize, y as usize)) {
            Cell::BackgroundEdge
        } else {
            before.at(x, y)
        })
}

/// `c` marks position `k` of the `line.len()` cells of leg `e`, and no later position of
/// `line` below `upto` is the same cell `p`.
pub open spec fn marks_last(c: Cell, e: usize, line: Seq<(usize, usize)>, p: (usize, usize), upto: int) -> bool {
    c matches Cell::SolutionEdge { edge, step, steps } && edge == e && steps == line.len() && step
        < upto && line[step as int] == p && forall|j: int| step < j < upto ==> line[j] != p
}

/// `after` is `before` with every cell that `line` touches marked as part of tour leg `e`,
/// whatever was there before; a cell touched twice keeps its later position.
pub open spec fn solution_painted(before: Canvas, after: Canvas, line: Seq<(usize, usize)>, e: usize) -> bool {
    &&& after.wf()
    &&& after.width == before.width
    &&& after.height == before.height
    &&& forall|x: int, y: int|
        after.in_bounds(x, y) ==> if line.contains((x as usize, y as usize)) {
            marks_last(#[trigger] after.at(x, y), e, line, (x as usize, y as usize), line.len() as int)
        } else {
            after.at(x, y) == before.at(x, y)
        }
}

/// First column of a label of `len` characters centred on column `x`, kept off the left edge.
pub open spec fn label_start(x: usize, len: nat) -> int {
    if x >= len / 2 {
        x - len / 2
    } else {
        0
    }
}

/// `after` is `before` with `name` written on row `y` from `label_start`, dropping what
/// falls off the canvas.
pub open spec fn label_painted(before: Canvas, after: Canvas, x: usize, y: usize, name: Seq<char>) -> bool {
    &&& after.wf()
    &&& after.width == before.width
    &&& after.height == before.height
    &&& forall|a: int, b: int|
        after.in_bounds(a, b) ==> #[trigger] after.at(a, b) == (if b == y && label_start(x, name.len())
            <= a < label_start(x, name.len()) + name.len() {
            Cell::Label { ch: name[a - label_start(x, name.len())] }
        } else {
            before.at(a, b)
        })
}

/// Where a background line and a tour leg cross, the tour leg shows, whichever cell was
/// drawn first by the background.
pub proof fn lemma_solution_over_background(
    c0: Canvas,
    c1: Canvas,
    c2: Canvas,
    bg: Seq<(usize, usize)>,
    sol: Seq<(usize, usize)>,
    e: usize,
    x: int,
    y: int,
)
    requires
        background_painted(c0, c1, bg),
        solution_painted(c1, c2, sol, e),
        c2.in_bounds(x, y),
        bg.contains((x as usize, y as usize)),
        sol.contains((x as usize, y as usize)),
    ensures
        c2.at(x, y) is SolutionEdge,
        c2.at(x, y) != Cell::BackgroundEdge,
{
    assert(marks_last(c2.at(x, y), e, sol, (x as usize, y as usize), sol.len() as int));
}

impl Canvas {
    /// Marks every empty cell of `line` inside the canvas as a background edge.
    pub fn paint_background(&mut self, line: &Vec<(usize, usize)>)
        requires
            old(self).wf(),
        ensures
            background_painted(*old(self), *final(self), line@),
    {
        let ghost start = *self;
        let mut k: usize = 0;
        while k < line.len()
            invariant
                self.wf(),
                self.width == start.width,
                self.height == start.height,
                k <= line@.len(),
                forall|x: int, y: int|
                    self.in_bounds(x, y) ==> #[trigger] self.at(x, y) == (if start.at(x, y) == Cell::Empty
                        && line@.subrange(0, k as int).contains((x as usize, y as usize)) {
                        Cell::BackgroundEdge
                    } else {
                        start.at(x, y)
                    }),
            decreases line@.len() - k,
        {
            let (x, y) = line[k];
            let ghost before = *self;
            if x < self.width && y < self.height && matches!(self.get(x, y), Cell::Empty) {
                self.put(x, y, Cell::BackgroundEdge);
            }
            proof {
                let pre = line@.subrange(0, k as int);
                let post = line@.subrange(0, k + 1);
                assert forall|a: int, b: int| self.in_bounds(a, b) implies #[trigger] self.at(a, b) == (if start.at(a, b)
                    == Cell::Empty && post.contains((a as usize, b as usize)) {
                    Cell::BackgroundEdge
                } else {
                    start.at(a, b)
                }) by {
                    assert(before.at(a, b) == (if start.at(a, b) == Cell::Empty && pre.contains((a as usize, b as usize)) {
                        Cell::BackgroundEdge
                    } else {
                        start.at(a, b)
                    }));
                    let p = (a as usize, b as usize);
                    if post.contains(p) && !pre.contains(p) {
                        let i = choose|i: int| 0 <= i < post.len() && post[i] == p;
                        if i < k {
                            assert(pre[i] == p);
                        }
                    }
                    if pre.contains(p) {
                        let i = choose|i: int| 0 <= i < pre.len() && pre[i] == p;
                        assert(post[i] == p);
                    }
                    if (a, b) == (x as int, y as int) {
                        assert(post[k as int] == p);
                    }
                }
            }
            k += 1;
        }
        assert(line@.subrange(0, line@.len() as int) =~= line@);
    }

    /// Marks every cell of `line` inside the canvas as position `k` of tour leg `edge`,
    /// over whatever was there.
    pub fn paint_solution(&mut self, line: &Vec<(usize, usize)>, edge: usize)
        requires
            old(self).wf(),
        ensures
            solution_painted(*old(self), *final(self), line@, edge),
    {
        let ghost start = *self;
        let steps = line.len();
        let mut k: usize = 0;
        while k < steps
            invariant
                self.wf(),
                self.width == start.width,
                self.height == start.height,
                steps == line@.len(),
                k <= steps,
                forall|x: int, y: int|
                    self.in_bounds(x, y) ==> if line@.subrange(0, k as int).contains((x as usize, y as usize)) {
                        marks_last(#[trigger] self.at(x, y), edge, line@, (x as usize, y as usize), k as int)
                    } else {
                        self.at(x, y) == start.at(x, y)
                    },
            decreases steps - k,
        {
            let (x, y) = line[k];
            let ghost before = *self;
            if x < self.width && y < self.height {
                self.put(x, y, Cell::SolutionEdge { edge, step: k, steps });
            }
            proof {
                let pre = line@.subrange(0, k as int);
                let post = line@.subrange(0, k + 1);
                assert forall|a: int, b: int| self.in_bounds(a, b) implies if post.contains((a as usize, b as usize)) {
                    marks_last(#[trigger] self.at(a, b), edge, line@, (a as usize, b as usize), k + 1)
                } else {
                    self.at(a, b) == start.at(a, b)
                } by {
                    let p = (a as usize, b as usize);
                    assert(if pre.contains(p) {
                        marks_last(before.at(a, b), edge, line@, p, k as int)
                    } else {
                        before.at(a, b) == start.at(a, b)
                    });
                    if post.contains(p) && !pre.contains(p) {
                        let i = choose|i: int| 0 <= i < post.len() && post[i] == p;
                        if i < k {
                            assert(pre[i] == p);
                        }
                    }
                    if pre.contains(p) {
                        let i = choose|i: int| 0 <= i < pre.len() && pre[i] == p;
                        assert(post[i] == p);
                    }
                    if (a, b) == (x as int, y as int) {
                        assert(post[k as int] == p);
                    }
                }
            }
            k += 1;
        }
        assert(line@.subrange(0, line@.len() as int) =~= line@);
    }

    /// Writes `name` on row `y`, centred on column `x`, over whatever was there.
    pub fn paint_label(&mut self, x: usize, y: usize, name: &Vec<char>)
        requires
            old(self).wf(),
        ensures
            label_painted(*old(self), *final(self), x, y, name@),
    {
        let ghost start = *self;
        let len = name.len();
        let half = len / 2;
        let sx: usize = if x >= half { x - half } else { 0 };
        let mut j: usize = 0;
        while j < len
            invariant
                self.wf(),
                self.width == start.width,
                self.height == start.height,
                len == name@.len(),
                sx == label_start(x, len as nat),
                j <= len,
                forall|a: int, b: int|
                    self.in_bounds(a, b) ==> #[trigger] self.at(a, b) == (if b == y && sx <= a < sx + j {
                        Cell::Label { ch: name@[a - sx] }
                    } else {
                        start.at(a, b)
                    }),
            decreases len - j,
        {
            if y < self.height && j < self.width && sx < self.width - j {
                self.put(sx + j, y, Cell::Label { ch: name[j] });
            }
            j += 1;
        }
    }
}

} // verus!
