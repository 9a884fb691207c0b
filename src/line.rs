use vstd::prelude::*;

verus! {

/// The largest canvas side, and so the largest coordinate a line may have.
pub const MAX_SIDE: usize = 0xffff;

/// `b` is `a` or one unit from `a` towards `t`.
pub open spec fn toward(a: usize, b: usize, t: usize) -> bool {
    if a < t {
        b == a || b == a + 1
    } else if a > t {
        b == a || b + 1 == a
    } else {
        b == a
    }
}

/// `q` is a grid neighbour of `p` (diagonals included) one step closer to `(tx, ty)`.
pub open spec fn step_toward(p: (usize, usize), q: (usize, usize), tx: usize, ty: usize) -> bool {
    toward(p.0, q.0, tx) && toward(p.1, q.1, ty) && p != q
}

/// A chain of grid cells from `(x0, y0)` to `(x1, y1)`, each a neighbour of the one before,
/// each one step closer to the end.
pub open spec fn is_line(r: Seq<(usize, usize)>, x0: usize, y0: usize, x1: usize, y1: usize) -> bool {
    &&& r.len() >= 1
    &&& r[0] == (x0, y0)
    &&& r.last() == (x1, y1)
    &&& forall|i: int| 0 <= i < r.len() - 1 ==> #[trigger] step_toward(r[i], r[i + 1], x1, y1)
}

/// The cells visited by integer error accumulation from `(x, y)` towards `(x1, y1)`, where
/// `dx = |x1 - x0|`, `dy = |y1 - y0|` and `sx`, `sy` are the step directions: while the end
/// is not reached, with `e2 = 2 * err`, step x when `e2 >= -dy` and y when `e2 <= dx`.
/// `fuel` bounds the number of steps.
pub open spec fn line_from(
    x: int,
    y: int,
    x1: int,
    y1: int,
    dx: int,
    dy: int,
    sx: int,
    sy: int,
    err: int,
    fuel: nat,
) -> Seq<(usize, usize)>
    decreases fuel,
{
    if fuel == 0 || (x == x1 && y == y1) {
        seq![(x as usize, y as usize)]
    } else {
        let e2 = 2 * err;
        let nx = if e2 >= -dy { x + sx } else { x };
        let e1 = if e2 >= -dy { err - dy } else { err };
        let ny = if e2 <= dx { y + sy } else { y };
        let ne = if e2 <= dx { e1 + dx } else { e1 };
        seq![(x as usize, y as usize)] + line_from(nx, ny, x1, y1, dx, dy, sx, sy, ne, (fuel - 1) as nat)
    }
}

pub open spec fn abs_diff(a: usize, b: usize) -> int {
    if a >= b { a - b } else { b - a }
}

pub open spec fn dir(a: usize, b: usize) -> int {
    if a < b { 1 } else { -1 }
}

/// The Bresenham line from `(x0, y0)` to `(x1, y1)`.
pub open spec fn line_cells(x0: usize, y0: usize, x1: usize, y1: usize) -> Seq<(usize, usize)> {
    line_from(
        x0 as int,
        y0 as int,
        x1 as int,
        y1 as int,
        abs_diff(x0, x1),
        abs_diff(y0, y1),
        dir(x0, x1),
        dir(y0, y1),
        abs_diff(x0, x1) - abs_diff(y0, y1),
        (abs_diff(x0, x1) + abs_diff(y0, y1) + 1) as nat,
    )
}

/// The cells of the integer (Bresenham) line from `(x0, y0)` to `(x1, y1)`, both ends included.
pub fn bresenham_line(x0: usize, y0: usize, x1: usize, y1: usize) -> (r: Vec<(usize, usize)>)
    requires
        x0 <= MAX_SIDE,
        y0 <= MAX_SIDE,
        x1 <= MAX_SIDE,
        y1 <= MAX_SIDE,
    ensures
        r@ == line_cells(x0, y0, x1, y1),
        is_line(r@, x0, y0, x1, y1),
{
    let ax0 = x0 as i64;
    let ay0 = y0 as i64;
    let ax1 = x1 as i64;
    let ay1 = y1 as i64;
    let dx: i64 = if ax1 >= ax0 { ax1 - ax0 } else { ax0 - ax1 };
    let dy: i64 = if ay1 >= ay0 { ay1 - ay0 } else { ay0 - ay1 };
    let sx: i64 = if ax0 < ax1 { 1 } else { -1 };
    let sy: i64 = if ay0 < ay1 { 1 } else { -1 };
    let mut x: i64 = ax0;
    let mut y: i64 = ay0;
    let mut err: i64 = dx - dy;
    let ghost mut sxn: int = 0;
    let ghost mut syn: int = 0;
    let ghost mut fuel: nat = (dx + dy + 1) as nat;
    let ghost full = line_cells(x0, y0, x1, y1);
    let mut pts: Vec<(usize, usize)> = Vec::new();
    pts.push((x0, y0));
    while !(x == ax1 && y == ay1)
        invariant
            0 <= dx <= MAX_SIDE,
            0 <= dy <= MAX_SIDE,
            dx == (if ax1 >= ax0 { ax1 - ax0 } else { ax0 - ax1 }),
            dy == (if ay1 >= ay0 { ay1 - ay0 } else { ay0 - ay1 }),
            sx == (if ax0 < ax1 { 1i64 } else { -1i64 }),
            sy == (if ay0 < ay1 { 1i64 } else { -1i64 }),
            ax0 == x0,
            ay0 == y0,
            ax1 == x1,
            ay1 == y1,
            0 <= sxn <= dx,
            0 <= syn <= dy,
            ax0 < ax1 ==> x == ax0 + sxn,
            ax0 >= ax1 ==> x == ax0 - sxn,
            ay0 < ay1 ==> y == ay0 + syn,
            ay0 >= ay1 ==> y == ay0 - syn,
            err == dx * (1 + syn) - dy * (1 + sxn),
            pts@.len() >= 1,
            pts@[0] == (x0, y0),
            pts@.last() == (x as usize, y as usize),
            forall|i: int| 0 <= i < pts@.len() - 1 ==> #[trigger] step_toward(pts@[i], pts@[i + 1], x1, y1),
            fuel >= (dx - sxn) + (dy - syn) + 1,
            full == line_cells(x0, y0, x1, y1),
            full == pts@.drop_last() + line_from(x as int, y as int, x1 as int, y1 as int, dx as int, dy as int, sx as int, sy as int, err as int, fuel),
        decreases (dx - sxn) + (dy - syn),
    {
        assert(dx * (1 + syn) <= MAX_SIDE * (1 + MAX_SIDE)) by (nonlinear_arith)
            requires
                0 <= dx <= MAX_SIDE,
                0 <= syn <= MAX_SIDE,
        ;
        assert(dy * (1 + sxn) <= MAX_SIDE * (1 + MAX_SIDE)) by (nonlinear_arith)
            requires
                0 <= dy <= MAX_SIDE,
                0 <= sxn <= MAX_SIDE,
        ;
        assert(0 <= dx * (1 + syn) && 0 <= dy * (1 + sxn)) by (nonlinear_arith)
            requires
                0 <= dx,
                0 <= syn,
                0 <= dy,
                0 <= sxn,
        ;
        let e2 = 2 * err;
        let xs = e2 >= -dy;
        let ys = e2 <= dx;
        proof {
            // Stepping an axis that has reached its end would mean the line is done.
            let a = dx as int;
            let b = dy as int;
            let i = sxn;
            let j = syn;
            assert(a * (1 + j) == a + a * j) by (nonlinear_arith);
            assert(b * (1 + i) == b + b * i) by (nonlinear_arith);
            if i == a && j < b {
                assert(a * j <= a * (b - 1)) by (nonlinear_arith)
                    requires
                        j <= b - 1,
                        0 <= a,
                ;
                assert(a * (b - 1) == a * b - a) by (nonlinear_arith);
                assert(b * i == a * b) by (nonlinear_arith)
                    requires
                        i == a,
                ;
            }
            if j == b && i < a {
                assert(b * i <= b * (a - 1)) by (nonlinear_arith)
                    requires
                        i <= a - 1,
                        0 <= b,
                ;
                assert(b * (a - 1) == a * b - b) by (nonlinear_arith);
                assert(a * j == a * b) by (nonlinear_arith)
                    requires
                        j == b,
                ;
            }
            if sxn == dx && syn == dy {
                assert(x == ax1 && y == ay1);
            }
        }
        let ghost px = x;
        let ghost py = y;
        let ghost perr = err;
        let ghost pfuel = fuel;
        if xs {
            err = err - dy;
            x = x + sx;
            proof {
                sxn = sxn + 1;
            }
        }
        if ys {
            err = err + dx;
            y = y + sy;
            proof {
                syn = syn + 1;
            }
        }
        assert(err == dx * (1 + syn) - dy * (1 + sxn)) by (nonlinear_arith)
            requires
                err == dx * (1 + (syn - (if ys { 1int } else { 0 }))) - dy * (1 + (sxn - (if xs {
                    1int
                } else {
                    0
                }))) - (if xs { dy as int } else { 0 }) + (if ys { dx as int } else { 0 }),
        ;
        let ghost old_pts = pts@;
        pts.push((x as usize, y as usize));
        proof {
            fuel = (fuel - 1) as nat;
            assert(line_from(px as int, py as int, x1 as int, y1 as int, dx as int, dy as int, sx as int, sy as int, perr as int, pfuel)
                == seq![(px as usize, py as usize)] + line_from(x as int, y as int, x1 as int, y1 as int, dx as int, dy as int, sx as int, sy as int, err as int, fuel));
            assert(pts@.drop_last() =~= old_pts);
            assert(old_pts =~= old_pts.drop_last() + seq![(px as usize, py as usize)]);
            assert(full =~= pts@.drop_last() + line_from(x as int, y as int, x1 as int, y1 as int, dx as int, dy as int, sx as int, sy as int, err as int, fuel));
            let k = old_pts.len() - 1;
            assert(pts@[k] == (px as usize, py as usize));
            assert(step_toward(pts@[k], pts@[k + 1], x1, y1));
            assert forall|i: int| 0 <= i < pts@.len() - 1 implies #[trigger] step_toward(pts@[i], pts@[i + 1], x1, y1) by {
                if i < k {
                    assert(pts@[i] == old_pts[i] && pts@[i + 1] == old_pts[i + 1]);
                }
            }
        }
    }
    assert(pts@ =~= pts@.drop_last() + seq![(x as usize, y as usize)]);
    pts
}

} // verus!
