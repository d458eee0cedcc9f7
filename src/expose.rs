use vstd::prelude::*;
use crate::geometry::{
    all_wf, floor_div, grid_side, LayoutError, lemma_div_range, is_grid_side, Window, MAX_POS, MAX_SCALE, MAX_WINDOWS,
    SCALE_ONE,
};

verus! {

/// Largest magnitude of the progress value of a stepped layout (a thousand full
/// transitions), which keeps every blended position and scale within `i64`.
pub const MAX_STEP: i32 = 100_000;

/// Squared distance from `(x, y)` to the centre of `cell` (row-major) in a grid of
/// `cols` by `cols` cells over a `sw` by `sh` space, measured in units of
/// `1 / (2 * cols)` so that it is exact.
pub open spec fn cell_dist(x: int, y: int, cell: int, cols: int, sw: int, sh: int) -> int {
    let row = cell / cols;
    let col = cell % cols;
    let dx = 2 * cols * x - (2 * col + 1) * sw;
    let dy = 2 * cols * y - (2 * row + 1) * sh;
    dx * dx + dy * dy
}

/// A sequence of cell indices as integers.
pub open spec fn as_ints(cells: Seq<usize>) -> Seq<int> {
    cells.map_values(|c: usize| c as int)
}

/// No earlier window (of the first `i`) holds `cell`.
pub open spec fn is_free(cells: Seq<int>, i: int, cell: int) -> bool {
    forall|k: int| 0 <= k < i ==> cells[k] != cell
}

/// `cell` is the free cell nearest to `(x, y)`, the first in row-major order among equals.
pub open spec fn is_nearest_free(
    cells: Seq<int>,
    i: int,
    cols: int,
    sw: int,
    sh: int,
    x: int,
    y: int,
    cell: int,
) -> bool {
    &&& 0 <= cell < cols * cols
    &&& is_free(cells, i, cell)
    &&& forall|j: int|
        0 <= j < cols * cols && is_free(cells, i, j) ==> cell_dist(x, y, cell, cols, sw, sh)
            <= #[trigger] cell_dist(x, y, j, cols, sw, sh)
    &&& forall|j: int|
        0 <= j < cell && is_free(cells, i, j) ==> cell_dist(x, y, cell, cols, sw, sh)
            < #[trigger] cell_dist(x, y, j, cols, sw, sh)
}

/// `cells` gives each window, in order, the free cell nearest to its position.
pub open spec fn is_assignment(ws: Seq<Window>, cols: int, sw: int, sh: int, cells: Seq<int>) -> bool {
    &&& cells.len() == ws.len()
    &&& forall|i: int|
        0 <= i < ws.len() ==> #[trigger] is_nearest_free(
            cells,
            i,
            cols,
            sw,
            sh,
            ws[i].x as int,
            ws[i].y as int,
            cells[i],
        )
}

/// The scale that fits a window into a `sw / cols` by `sh / cols` cell, preserving
/// its aspect ratio; a window without a definite size keeps the unit scale.
pub open spec fn fit_scale(w: Window, cols: int, sw: int, sh: int) -> int {
    if w.definite() {
        let sx = sw * SCALE_ONE / (cols * w.width);
        let sy = sh * SCALE_ONE / (cols * w.height);
        if sx <= sy {
            sx
        } else {
            sy
        }
    } else {
        SCALE_ONE as int
    }
}

/// The coordinate that centres an extent `ext` at `scale` in slot `slot` of `cols`
/// slots over a span `span`.
pub open spec fn centred(slot: int, cols: int, span: int, ext: int, scale: int) -> int {
    ((2 * slot + 1) * span * SCALE_ONE - cols * ext * scale) / (2 * SCALE_ONE * cols)
}

/// Where the expose layout puts a window assigned to `cell`.
pub open spec fn expose_target(w: Window, cell: int, cols: int, sw: int, sh: int) -> Window {
    let s = fit_scale(w, cols, sw, sh);
    w.moved(
        centred(cell % cols, cols, sw, w.ext_w(), s),
        centred(cell / cols, cols, sh, w.ext_h(), s),
        s,
    )
}

/// Linear interpolation from `a` toward `b` by `step` hundredths, rounded down.
pub open spec fn lerp(a: int, b: int, step: int) -> int {
    a + (b - a) * step / 100
}

/// Where the stepped expose layout puts a window assigned to `cell` at progress
/// `step`: its position and its scale each blended from the present ones toward
/// those of the expose layout.
pub open spec fn step_target(w: Window, cell: int, cols: int, sw: int, sh: int, step: int) -> Window {
    let t = expose_target(w, cell, cols, sw, sh);
    w.moved(
        lerp(w.x as int, t.x as int, step),
        lerp(w.y as int, t.y as int, step),
        lerp(w.scale as int, t.scale as int, step),
    )
}

proof fn lemma_grid_side_unique(n: int, c1: int, c2: int)
    requires
        is_grid_side(n, c1),
        is_grid_side(n, c2),
    ensures
        c1 == c2,
{
    if c1 < c2 {
        assert((c2 - 1) * (c2 - 1) >= c1 * c1) by (nonlinear_arith)
            requires
                0 <= c1 <= c2 - 1,
        ;
    } else if c2 < c1 {
        assert((c1 - 1) * (c1 - 1) >= c2 * c2) by (nonlinear_arith)
            requires
                0 <= c2 <= c1 - 1,
        ;
    }
}

proof fn lemma_dist_bounds(x: int, y: int, cell: int, cols: int, sw: int, sh: int)
    requires
        -MAX_POS <= x <= MAX_POS,
        -MAX_POS <= y <= MAX_POS,
        1 <= cols <= 256,
        0 <= cell < cols * cols,
        0 <= sw <= 0xffff,
        0 <= sh <= 0xffff,
    ensures
        0 <= cell_dist(x, y, cell, cols, sw, sh) < 0x1_0000_0000_0000_0000_0000_0000_0000,
        0 <= cell / cols < cols,
        0 <= cell % cols < cols,
{
    let row = cell / cols;
    let col = cell % cols;
    assert(0 <= row < cols) by (nonlinear_arith)
        requires
            row == cell / cols,
            0 <= cell < cols * cols,
            cols >= 1,
    ;
    let dx = 2 * cols * x - (2 * col + 1) * sw;
    let dy = 2 * cols * y - (2 * row + 1) * sh;
    assert(-0x4_0000_0000_0000 <= dx <= 0x4_0000_0000_0000) by (nonlinear_arith)
        requires
            dx == 2 * cols * x - (2 * col + 1) * sw,
            -MAX_POS <= x <= MAX_POS,
            1 <= cols <= 256,
            0 <= col < cols,
            0 <= sw <= 0xffff,
    ;
    assert(-0x4_0000_0000_0000 <= dy <= 0x4_0000_0000_0000) by (nonlinear_arith)
        requires
            dy == 2 * cols * y - (2 * row + 1) * sh,
            -MAX_POS <= y <= MAX_POS,
            1 <= cols <= 256,
            0 <= row < cols,
            0 <= sh <= 0xffff,
    ;
    assert(0 <= dx * dx <= 0x20_0000_0000_0000_0000_0000_0000) by (nonlinear_arith)
        requires
            -0x4_0000_0000_0000 <= dx <= 0x4_0000_0000_0000,
    ;
    assert(0 <= dy * dy <= 0x20_0000_0000_0000_0000_0000_0000) by (nonlinear_arith)
        requires
            -0x4_0000_0000_0000 <= dy <= 0x4_0000_0000_0000,
    ;
}

/// Exact squared distance to a cell centre, as `cell_dist` states it.
fn dist_to_cell(x: i64, y: i64, cell: usize, cols: usize, sw: u16, sh: u16) -> (r: u128)
    requires
        -MAX_POS <= x <= MAX_POS,
        -MAX_POS <= y <= MAX_POS,
        1 <= cols <= 256,
        cell < cols * cols,
    ensures
        r == cell_dist(x as int, y as int, cell as int, cols as int, sw as int, sh as int),
{
    proof {
        lemma_dist_bounds(x as int, y as int, cell as int, cols as int, sw as int, sh as int);
    }
    let row = (cell / cols) as i128;
    let col = (cell % cols) as i128;
    let c = cols as i128;
    proof {
        assert(0 <= row < 256 && 0 <= col < 256) by (nonlinear_arith)
            requires
                row == cell / cols,
                col == cell % cols,
                cell < cols * cols,
                1 <= cols <= 256,
        ;
        assert(-0x2_0000_0000_0000 <= 2 * c * (x as i128) <= 0x2_0000_0000_0000) by (nonlinear_arith)
            requires
                -MAX_POS <= x <= MAX_POS,
                1 <= c <= 256,
        ;
        assert(-0x2_0000_0000_0000 <= 2 * c * (y as i128) <= 0x2_0000_0000_0000) by (nonlinear_arith)
            requires
                -MAX_POS <= y <= MAX_POS,
                1 <= c <= 256,
        ;
        assert(0 <= (2 * col + 1) * (sw as i128) <= 0x1_0000_0000) by (nonlinear_arith)
            requires
                0 <= col < 256,
                sw <= 0xffff,
        ;
        assert(0 <= (2 * row + 1) * (sh as i128) <= 0x1_0000_0000) by (nonlinear_arith)
            requires
                0 <= row < 256,
                sh <= 0xffff,
        ;
    }
    let dx: i128 = 2 * c * (x as i128) - (2 * col + 1) * (sw as i128);
    let dy: i128 = 2 * c * (y as i128) - (2 * row + 1) * (sh as i128);
    proof {
        assert(0 <= dx * dx <= 0x20_0000_0000_0000_0000_0000_0000) by (nonlinear_arith)
            requires
                -0x4_0000_0000_0000 <= dx <= 0x4_0000_0000_0000,
        ;
        assert(0 <= dy * dy <= 0x20_0000_0000_0000_0000_0000_0000) by (nonlinear_arith)
            requires
                -0x4_0000_0000_0000 <= dy <= 0x4_0000_0000_0000,
        ;
    }
    (dx * dx + dy * dy) as u128
}

/// The free cell nearest to `(x, y)`, the first in row-major order among equals.
fn nearest_free_cell(
    assigned: &Vec<bool>,
    cells: Ghost<Seq<int>>,
    i: Ghost<int>,
    cols: usize,
    sw: u16,
    sh: u16,
    x: i64,
    y: i64,
) -> (r: usize)
    requires
        1 <= cols <= 256,
        assigned.len() == cols * cols,
        forall|j: int| 0 <= j < cols * cols ==> assigned@[j] == !is_free(cells@, i@, j),
        exists|j: int| 0 <= j < cols * cols && is_free(cells@, i@, j),
        -MAX_POS <= x <= MAX_POS,
        -MAX_POS <= y <= MAX_POS,
    ensures
        is_nearest_free(cells@, i@, cols as int, sw as int, sh as int, x as int, y as int, r as int),
{
    let n = cols * cols;
    let mut best: usize = 0;
    let mut best_dist: u128 = 0;
    let mut found = false;
    let mut idx: usize = 0;
    while idx < n
        invariant
            n == cols * cols,
            1 <= cols <= 256,
            idx <= n,
            assigned.len() == n,
            forall|j: int| 0 <= j < n ==> assigned@[j] == !is_free(cells@, i@, j),
            -MAX_POS <= x <= MAX_POS,
            -MAX_POS <= y <= MAX_POS,
            found ==> best < idx && is_free(cells@, i@, best as int) && best_dist == cell_dist(
                x as int,
                y as int,
                best as int,
                cols as int,
                sw as int,
                sh as int,
            ),
            !found ==> forall|j: int| 0 <= j < idx ==> !is_free(cells@, i@, j),
            found ==> forall|j: int|
                0 <= j < idx && is_free(cells@, i@, j) ==> best_dist <= #[trigger] cell_dist(
                    x as int,
                    y as int,
                    j,
                    cols as int,
                    sw as int,
                    sh as int,
                ),
            found ==> forall|j: int|
                0 <= j < best && is_free(cells@, i@, j) ==> best_dist < #[trigger] cell_dist(
                    x as int,
                    y as int,
                    j,
                    cols as int,
                    sw as int,
                    sh as int,
                ),
        decreases n - idx,
    {
        if !assigned[idx] {
            let d = dist_to_cell(x, y, idx, cols, sw, sh);
            if !found || d < best_dist {
                best = idx;
                best_dist = d;
                found = true;
            }
        }
        idx = idx + 1;
    }
    best
}

/// Gives each window, in order, the free cell of the `cols` by `cols` grid nearest
/// to its position (cells are row-major indices).
pub fn assign_cells(windows: &Vec<Window>, cols: usize, sw: u16, sh: u16) -> (cells: Vec<usize>)
    requires
        windows.len() <= MAX_WINDOWS,
        is_grid_side(windows.len() as int, cols as int),
        all_wf(windows@),
    ensures
        is_assignment(windows@, cols as int, sw as int, sh as int, as_ints(cells@)),
        forall|i: int| 0 <= i < cells.len() ==> cells@[i] < cols * cols,
{
    let n = windows.len();
    let mut cells: Vec<usize> = Vec::new();
    if n == 0 {
        proof {
            assert(as_ints(cells@) =~= Seq::<int>::empty());
        }
        return cells;
    }
    proof {
        assert(cols <= 256) by (nonlinear_arith)
            requires
                n <= MAX_WINDOWS,
                n >= 1,
                (cols - 1) * (cols - 1) < n,
                cols >= 1,
        ;
    }
    proof {
        assert(cols * cols <= 0x10000) by (nonlinear_arith)
            requires
                cols <= 256,
        ;
    }
    let mut assigned: Vec<bool> = vec![false; cols * cols];
    let ghost mut taken: Set<int> = Set::empty();
    let mut i: usize = 0;
    while i < n
        invariant
            n == windows.len(),
            n <= cols * cols,
            1 <= cols <= 256,
            i <= n,
            cells.len() == i,
            assigned.len() == cols * cols,
            all_wf(windows@),
            taken.finite(),
            taken.len() == i,
            forall|j: int| taken.contains(j) ==> 0 <= j < cols * cols,
            forall|j: int|
                0 <= j < cols * cols ==> (#[trigger] assigned@[j] == !is_free(
                    as_ints(cells@),
                    i as int,
                    j,
                ) && assigned@[j] == taken.contains(j)),
            forall|k: int| 0 <= k < i ==> cells@[k] < cols * cols,
            forall|k: int|
                0 <= k < i ==> #[trigger] is_nearest_free(
                    as_ints(cells@),
                    k,
                    cols as int,
                    sw as int,
                    sh as int,
                    windows@[k].x as int,
                    windows@[k].y as int,
                    cells@[k] as int,
                ),
        decreases n - i,
    {
        let ghost cs = as_ints(cells@);
        proof {
            let range = Set::new(|j: int| 0 <= j < cols * cols);
            if forall|j: int| 0 <= j < cols * cols ==> !is_free(cs, i as int, j) {
                assert(range.subset_of(taken)) by {
                    assert forall|j: int| range.contains(j) implies taken.contains(j) by {
                        assert(!is_free(cs, i as int, j));
                        assert(assigned@[j] == taken.contains(j));
                    }
                }
                vstd::set_lib::lemma_int_range(0, cols * cols);
                assert(range =~= vstd::set_lib::set_int_range(0, cols * cols));
                vstd::set_lib::lemma_len_subset(range, taken);
                assert(false);
            }
            assert(all_wf(windows@) ==> windows@[i as int].wf());
        }
        proof {
            assert forall|j: int| 0 <= j < cols * cols implies assigned@[j] == !is_free(cs, i as int, j) by {}
        }
        let w = windows[i];
        let c = nearest_free_cell(&assigned, Ghost(cs), Ghost(i as int), cols, sw, sh, w.x, w.y);
        assigned.set(c, true);
        cells.push(c);
        proof {
            taken = taken.insert(c as int);
            let cs2 = as_ints(cells@);
            assert forall|k: int| 0 <= k < i implies cs2[k] == cs[k] by {}
            assert forall|j: int| 0 <= j < cols * cols implies (#[trigger] assigned@[j] == !is_free(cs2, i + 1, j) && assigned@[j] == taken.contains(j)) by {
                if j == c as int {
                    assert(cs2[i as int] == c as int);
                    assert(!is_free(cs2, i + 1, j));
                } else {
                    assert(is_free(cs2, i + 1, j) == is_free(cs, i as int, j));
                }
            }
            assert forall|k: int| 0 <= k < i + 1 implies #[trigger] is_nearest_free(
                cs2,
                k,
                cols as int,
                sw as int,
                sh as int,
                windows@[k].x as int,
                windows@[k].y as int,
                cells@[k] as int,
            ) by {
                assert forall|j: int| is_free(cs2, k, j) == is_free(cs, k, j) by {
                    if k < i {
                    }
                }
                if k < i {
                    assert(is_nearest_free(cs, k, cols as int, sw as int, sh as int, windows@[k].x as int, windows@[k].y as int, cells@[k] as int));
                }
            }
        }
        i = i + 1;
    }
    cells
}


/// Exact `fit_scale`.
fn fit_scale_exec(w: &Window, cols: usize, sw: u16, sh: u16) -> (r: i64)
    requires
        1 <= cols <= 256,
    ensures
        r == fit_scale(*w, cols as int, sw as int, sh as int),
        0 <= r <= 0xffff * SCALE_ONE,
{
    if w.is_definite() {
        let c = cols as u64;
        proof {
            assert(1 <= c * (w.width as u64) <= 256 * 0xffff) by (nonlinear_arith)
                requires
                    1 <= c <= 256,
                    1 <= w.width <= 0xffff,
            ;
            assert(1 <= c * (w.height as u64) <= 256 * 0xffff) by (nonlinear_arith)
                requires
                    1 <= c <= 256,
                    1 <= w.height <= 0xffff,
            ;
        }
        let sx = (sw as u64 * 1000) / (c * w.width as u64);
        let sy = (sh as u64 * 1000) / (c * w.height as u64);
        proof {
            vstd::arithmetic::div_mod::lemma_div_is_ordered_by_denominator(
                sw as int * 1000,
                1,
                c * (w.width as int),
            );
            vstd::arithmetic::div_mod::lemma_div_is_ordered_by_denominator(
                sh as int * 1000,
                1,
                c * (w.height as int),
            );
        }
        if sx <= sy {
            sx as i64
        } else {
            sy as i64
        }
    } else {
        SCALE_ONE
    }
}

/// Exact `centred`.
fn centred_exec(slot: usize, cols: usize, span: u16, ext: u16, scale: i64) -> (r: i64)
    requires
        1 <= cols <= 256,
        slot < cols,
        -0x400_0000 <= scale <= 0x400_0000,
    ensures
        r == centred(slot as int, cols as int, span as int, ext as int, scale as int),
        -0x200_0000_0000 <= r <= 0x200_0000_0000,
{
    let t: i128 = 2 * slot as i128 + 1;
    proof {
        assert(0 <= t * (span as i128) <= 0x200_0000) by (nonlinear_arith)
            requires
                t == 2 * slot + 1,
                slot < 256,
                span <= 0xffff,
        ;
    }
    let a: i128 = t * (span as i128) * 1000;
    proof {
        assert(0 <= (cols as i128) * (ext as i128) <= 0x100_0000) by (nonlinear_arith)
            requires
                cols <= 256,
                ext <= 0xffff,
        ;
        let ce = (cols as i128) * (ext as i128);
        assert(-0x4_0000_0000_0000 <= ce * (scale as i128) <= 0x4_0000_0000_0000)
            by (nonlinear_arith)
            requires
                0 <= ce <= 0x100_0000,
                -0x400_0000 <= scale <= 0x400_0000,
        ;
    }
    let num: i128 = a - (cols as i128) * (ext as i128) * (scale as i128);
    let den: i128 = 2000 * cols as i128;
    let r = floor_div(num, den);
    proof {
        lemma_div_range(num as int, den as int, 0x8_0000_0000_0000);
        vstd::arithmetic::div_mod::lemma_div_is_ordered_by_denominator(
            0x8_0000_0000_0000,
            2000,
            den as int,
        );
    }
    r as i64
}

/// Exact `lerp`.
fn lerp_exec(a: i64, b: i64, step: i32) -> (r: i64)
    requires
        -0x400_0000_0000 <= a <= 0x400_0000_0000,
        -0x400_0000_0000 <= b <= 0x400_0000_0000,
        -MAX_STEP <= step <= MAX_STEP,
    ensures
        r == lerp(a as int, b as int, step as int),
        -0x80_0000_0000_0000 <= r <= 0x80_0000_0000_0000,
{
    let e: i128 = b as i128 - a as i128;
    proof {
        assert(-0x1000_0000_0000_0000 <= e * (step as i128) <= 0x1000_0000_0000_0000)
            by (nonlinear_arith)
            requires
                -0x800_0000_0000 <= e <= 0x800_0000_0000,
                -100_000 <= step <= 100_000,
        ;
    }
    let d: i128 = e * (step as i128);
    proof {
        lemma_div_range(d as int, 100, 0x1000_0000_0000_0000);
    }
    let q = floor_div(d, 100);
    (a as i128 + q) as i64
}

/// Where the expose layout puts `w` when it is assigned `cell`.
fn expose_target_exec(w: &Window, cell: usize, cols: usize, sw: u16, sh: u16) -> (r: Window)
    requires
        1 <= cols <= 256,
        cell < cols * cols,
    ensures
        r == expose_target(*w, cell as int, cols as int, sw as int, sh as int),
        -0x200_0000_0000 <= r.x <= 0x200_0000_0000,
        -0x200_0000_0000 <= r.y <= 0x200_0000_0000,
        0 <= r.scale <= 0xffff * SCALE_ONE,
{
    proof {
        assert(cell / cols < cols && cell % cols < cols) by (nonlinear_arith)
            requires
                cell < cols * cols,
                cols >= 1,
        ;
    }
    let s = fit_scale_exec(w, cols, sw, sh);
    let x = centred_exec(cell % cols, cols, sw, w.layout_width(), s);
    let y = centred_exec(cell / cols, cols, sh, w.layout_height(), s);
    Window { x, y, scale: s, ..*w }
}

/// Where the stepped expose layout puts `w` when it is assigned `cell`.
fn step_target_exec(w: &Window, cell: usize, cols: usize, sw: u16, sh: u16, step: i32) -> (r: Window)
    requires
        1 <= cols <= 256,
        cell < cols * cols,
        w.wf(),
        -MAX_STEP <= step <= MAX_STEP,
    ensures
        r == step_target(*w, cell as int, cols as int, sw as int, sh as int, step as int),
{
    proof {
        assert(cell / cols < cols && cell % cols < cols) by (nonlinear_arith)
            requires
                cell < cols * cols,
                cols >= 1,
        ;
    }
    let t = expose_target_exec(w, cell, cols, sw, sh);
    let x = lerp_exec(w.x, t.x, step);
    let y = lerp_exec(w.y, t.y, step);
    let s = lerp_exec(w.scale, t.scale, step);
    Window { x, y, scale: s, ..*w }
}

/// `after` is the expose layout of `before` in a `sw` by `sh` space.
pub open spec fn exposed(before: Seq<Window>, after: Seq<Window>, sw: int, sh: int) -> bool {
    exists|cols: int, cells: Seq<int>|
        #![trigger is_assignment(before, cols, sw, sh, cells)]
        is_grid_side(before.len() as int, cols) && is_assignment(before, cols, sw, sh, cells)
            && after.len() == before.len() && forall|i: int|
            0 <= i < before.len() ==> after[i] == #[trigger] expose_target(
                before[i],
                cells[i],
                cols,
                sw,
                sh,
            )
}

/// `after` is the stepped expose layout of `before` at progress `step`.
pub open spec fn exposed_step(
    before: Seq<Window>,
    after: Seq<Window>,
    sw: int,
    sh: int,
    step: int,
) -> bool {
    exists|cols: int, cells: Seq<int>|
        #![trigger is_assignment(before, cols, sw, sh, cells)]
        is_grid_side(before.len() as int, cols) && is_assignment(before, cols, sw, sh, cells)
            && after.len() == before.len() && forall|i: int|
            0 <= i < before.len() ==> after[i] == #[trigger] step_target(
                before[i],
                cells[i],
                cols,
                sw,
                sh,
                step,
            )
}

/// Arranges the windows in a square grid over a `space_width` by `space_height`
/// space: each window, in order, takes the free cell nearest to its position and is
/// scaled, keeping its aspect ratio, to fit that cell and centred in it. A space
/// with a side of zero is rejected.
pub fn expose(windows: &mut Vec<Window>, space_width: u16, space_height: u16) -> (r: Result<(), LayoutError>)
    requires
        old(windows).len() <= MAX_WINDOWS,
        all_wf(old(windows)@),
    ensures
        (space_width == 0 || space_height == 0) ==> r == Err::<(), LayoutError>(LayoutError::EmptySpace),
        (space_width > 0 && space_height > 0) ==> r == Ok::<(), LayoutError>(()),
        r is Err ==> final(windows)@ == old(windows)@,
        r is Ok ==> exposed(old(windows)@, final(windows)@, space_width as int, space_height as int),
{
    if space_width == 0 || space_height == 0 {
        return Err(LayoutError::EmptySpace);
    }
    let n = windows.len();
    let cols = grid_side(n);
    let cells = assign_cells(windows, cols, space_width, space_height);
    let ghost before = windows@;
    let mut i: usize = 0;
    while i < n
        invariant
            n == windows.len(),
            n == before.len(),
            n <= MAX_WINDOWS,
            cells.len() == n,
            is_grid_side(n as int, cols as int),
            n >= 1 ==> 1 <= cols <= 256,
            forall|k: int| 0 <= k < n ==> cells@[k] < cols * cols,
            i <= n,
            forall|k: int| i <= k < n ==> windows@[k] == before[k],
            forall|k: int|
                0 <= k < i ==> windows@[k] == expose_target(
                    before[k],
                    cells@[k] as int,
                    cols as int,
                    space_width as int,
                    space_height as int,
                ),
        decreases n - i,
    {
        let t = expose_target_exec(&windows[i], cells[i], cols, space_width, space_height);
        windows.set(i, t);
        i = i + 1;
    }
    proof {
        let cs = as_ints(cells@);
        assert(is_assignment(before, cols as int, space_width as int, space_height as int, cs));
    }
    Ok(())
}

/// The expose layout taken `step` hundredths of the way from each window's
/// present position and scale (a `step` past 100 overshoots). A space with a side
/// of zero is rejected.
pub fn expose_step(windows: &mut Vec<Window>, space_width: u16, space_height: u16, step: i32) -> (r: Result<(), LayoutError>)
    requires
        old(windows).len() <= MAX_WINDOWS,
        all_wf(old(windows)@),
        -MAX_STEP <= step <= MAX_STEP,
    ensures
        (space_width == 0 || space_height == 0) ==> r == Err::<(), LayoutError>(LayoutError::EmptySpace),
        (space_width > 0 && space_height > 0) ==> r == Ok::<(), LayoutError>(()),
        r is Err ==> final(windows)@ == old(windows)@,
        r is Ok ==> exposed_step(
            old(windows)@,
            final(windows)@,
            space_width as int,
            space_height as int,
            step as int,
        ),
{
    if space_width == 0 || space_height == 0 {
        return Err(LayoutError::EmptySpace);
    }
    let n = windows.len();
    let cols = grid_side(n);
    let cells = assign_cells(windows, cols, space_width, space_height);
    let ghost before = windows@;
    let mut i: usize = 0;
    while i < n
        invariant
            n == windows.len(),
            n == before.len(),
            n <= MAX_WINDOWS,
            all_wf(before),
            -MAX_STEP <= step <= MAX_STEP,
            cells.len() == n,
            is_grid_side(n as int, cols as int),
            n >= 1 ==> 1 <= cols <= 256,
            forall|k: int| 0 <= k < n ==> cells@[k] < cols * cols,
            i <= n,
            forall|k: int| i <= k < n ==> windows@[k] == before[k],
            forall|k: int|
                0 <= k < i ==> windows@[k] == step_target(
                    before[k],
                    cells@[k] as int,
                    cols as int,
                    space_width as int,
                    space_height as int,
                    step as int,
                ),
        decreases n - i,
    {
        proof {
            assert(before[i as int].wf());
        }
        let t = step_target_exec(&windows[i], cells[i], cols, space_width, space_height, step);
        windows.set(i, t);
        i = i + 1;
    }
    proof {
        let cs = as_ints(cells@);
        assert(is_assignment(before, cols as int, space_width as int, space_height as int, cs));
    }
    Ok(())
}

proof fn lemma_nearest_unique(
    c1: Seq<int>,
    c2: Seq<int>,
    i: int,
    cols: int,
    sw: int,
    sh: int,
    x: int,
    y: int,
)
    requires
        0 <= i <= c1.len(),
        0 <= i <= c2.len(),
        forall|k: int| 0 <= k < i ==> c1[k] == c2[k],
        is_nearest_free(c1, i, cols, sw, sh, x, y, c1[i]),
        is_nearest_free(c2, i, cols, sw, sh, x, y, c2[i]),
    ensures
        c1[i] == c2[i],
{
    assert forall|j: int| is_free(c1, i, j) == is_free(c2, i, j) by {
        if !is_free(c1, i, j) {
            let k = choose|k: int| 0 <= k < i && c1[k] == j;
            assert(c2[k] == j);
        }
        if !is_free(c2, i, j) {
            let k = choose|k: int| 0 <= k < i && c2[k] == j;
            assert(c1[k] == j);
        }
    }
    let a = c1[i];
    let b = c2[i];
    assert(cell_dist(x, y, a, cols, sw, sh) <= cell_dist(x, y, b, cols, sw, sh));
    assert(cell_dist(x, y, b, cols, sw, sh) <= cell_dist(x, y, a, cols, sw, sh));
}

proof fn lemma_prefix_agrees(
    ws: Seq<Window>,
    cols: int,
    sw: int,
    sh: int,
    c1: Seq<int>,
    c2: Seq<int>,
    i: int,
)
    requires
        is_assignment(ws, cols, sw, sh, c1),
        is_assignment(ws, cols, sw, sh, c2),
        0 <= i <= ws.len(),
    ensures
        forall|k: int| 0 <= k < i ==> c1[k] == c2[k],
    decreases i,
{
    if i > 0 {
        lemma_prefix_agrees(ws, cols, sw, sh, c1, c2, i - 1);
        assert(is_nearest_free(c1, i - 1, cols, sw, sh, ws[i - 1].x as int, ws[i - 1].y as int, c1[i - 1]));
        assert(is_nearest_free(c2, i - 1, cols, sw, sh, ws[i - 1].x as int, ws[i - 1].y as int, c2[i - 1]));
        lemma_nearest_unique(c1, c2, i - 1, cols, sw, sh, ws[i - 1].x as int, ws[i - 1].y as int);
    }
}

/// The cells of the expose layout are determined by the windows and the space:
/// two assignments of the same windows agree.
pub proof fn lemma_assignment_unique(
    ws: Seq<Window>,
    cols: int,
    sw: int,
    sh: int,
    c1: Seq<int>,
    c2: Seq<int>,
)
    requires
        is_assignment(ws, cols, sw, sh, c1),
        is_assignment(ws, cols, sw, sh, c2),
    ensures
        c1 == c2,
{
    lemma_prefix_agrees(ws, cols, sw, sh, c1, c2, ws.len() as int);
    assert(c1 =~= c2);
}

/// The assigner gives `n` windows `n` distinct cells of the `cols` by `cols` grid,
/// where `cols` is the ceiling of the square root of `n`.
pub proof fn law_cells_distinct(ws: Seq<Window>, cols: int, sw: int, sh: int, cells: Seq<int>)
    requires
        is_grid_side(ws.len() as int, cols),
        is_assignment(ws, cols, sw, sh, cells),
    ensures
        cells.len() == ws.len(),
        forall|i: int| 0 <= i < cells.len() ==> 0 <= #[trigger] cells[i] < cols * cols,
        forall|i: int, j: int| 0 <= i < j < cells.len() ==> cells[i] != cells[j],
{
    assert forall|i: int| 0 <= i < cells.len() implies 0 <= #[trigger] cells[i] < cols * cols by {
        assert(is_nearest_free(cells, i, cols, sw, sh, ws[i].x as int, ws[i].y as int, cells[i]));
    }
    assert forall|i: int, j: int| 0 <= i < j < cells.len() implies cells[i] != cells[j] by {
        assert(is_nearest_free(cells, j, cols, sw, sh, ws[j].x as int, ws[j].y as int, cells[j]));
    }
}

proof fn lemma_centred_within(slot: int, cols: int, span: int, ext: int, s: int)
    requires
        0 <= slot < cols,
        ext >= 0,
        s >= 0,
        cols * ext * s <= span * SCALE_ONE,
    ensures
        SCALE_ONE * cols * centred(slot, cols, span, ext, s) + cols * ext * s <= SCALE_ONE * (slot + 1)
            * span,
        cols * (centred(slot, cols, span, ext, s) + 1) > slot * span,
{
    let num = (2 * slot + 1) * span * SCALE_ONE - cols * ext * s;
    let den = 2 * SCALE_ONE * cols;
    let x = centred(slot, cols, span, ext, s);
    assert(den > 0) by (nonlinear_arith)
        requires
            cols >= 1,
            den == 2 * SCALE_ONE * cols,
    ;
    vstd::arithmetic::div_mod::lemma_fundamental_div_mod(num, den);
    vstd::arithmetic::div_mod::lemma_mod_bound(num, den);
    let m = num % den;
    assert(num == den * x + m);
    assert(SCALE_ONE * cols * x + cols * ext * s <= SCALE_ONE * (slot + 1) * span) by (
    nonlinear_arith)
        requires
            num == den * x + m,
            0 <= m,
            num == (2 * slot + 1) * span * SCALE_ONE - cols * ext * s,
            den == 2 * SCALE_ONE * cols,
            cols * ext * s <= span * SCALE_ONE,
    ;
    assert(cols * (x + 1) > slot * span) by (nonlinear_arith)
        requires
            num == den * x + m,
            m < den,
            num == (2 * slot + 1) * span * SCALE_ONE - cols * ext * s,
            den == 2 * SCALE_ONE * cols,
            cols * ext * s <= span * SCALE_ONE,
    ;
}

proof fn lemma_fit_fits(side: int, cols: int, span: int)
    requires
        side >= 1,
        cols >= 1,
        span >= 0,
    ensures
        cols * side * (span * SCALE_ONE / (cols * side)) <= span * SCALE_ONE,
        span * SCALE_ONE / (cols * side) >= 0,
{
    let d = cols * side;
    assert(d >= 1) by (nonlinear_arith)
        requires
            side >= 1,
            cols >= 1,
            d == cols * side,
    ;
    vstd::arithmetic::div_mod::lemma_fundamental_div_mod(span * SCALE_ONE, d);
    vstd::arithmetic::div_mod::lemma_mod_bound(span * SCALE_ONE, d);
    vstd::arithmetic::div_mod::lemma_div_pos_is_pos(span * SCALE_ONE, d);
}

/// In the expose layout every window's scale is at most what fits its cell, and its
/// scaled box lies in its cell (the right and bottom edges exactly, the left and top
/// edges to within one unit of rounding): the cell of column `c` spans
/// `[c * sw / cols, (c + 1) * sw / cols)`.
pub proof fn law_expose_fits_cell(w: Window, cell: int, cols: int, sw: int, sh: int)
    requires
        1 <= cols,
        0 <= cell < cols * cols,
        0 <= sw <= 0xffff,
        0 <= sh <= 0xffff,
    ensures
        ({
            let t = expose_target(w, cell, cols, sw, sh);
            let col = cell % cols;
            let row = cell / cols;
            &&& w.definite() ==> cols * w.width * t.scale <= sw * SCALE_ONE && cols * w.height
                * t.scale <= sh * SCALE_ONE
            &&& SCALE_ONE * cols * t.x + cols * w.ext_w() * t.scale <= SCALE_ONE * (col + 1) * sw
            &&& cols * (t.x + 1) > col * sw
            &&& SCALE_ONE * cols * t.y + cols * w.ext_h() * t.scale <= SCALE_ONE * (row + 1) * sh
            &&& cols * (t.y + 1) > row * sh
        }),
{
    let s = fit_scale(w, cols, sw, sh);
    let col = cell % cols;
    let row = cell / cols;
    assert(0 <= row < cols && 0 <= col < cols) by (nonlinear_arith)
        requires
            row == cell / cols,
            col == cell % cols,
            0 <= cell < cols * cols,
            cols >= 1,
    ;
    if w.definite() {
        lemma_fit_fits(w.width as int, cols, sw);
        lemma_fit_fits(w.height as int, cols, sh);
        let sx = sw * SCALE_ONE / (cols * w.width);
        let sy = sh * SCALE_ONE / (cols * w.height);
        assert(cols * w.width * s <= sw * SCALE_ONE) by (nonlinear_arith)
            requires
                s <= sx,
                cols * w.width * sx <= sw * SCALE_ONE,
                cols >= 1,
                w.width >= 1,
        ;
        assert(cols * w.height * s <= sh * SCALE_ONE) by (nonlinear_arith)
            requires
                s <= sy,
                cols * w.height * sy <= sh * SCALE_ONE,
                cols >= 1,
                w.height >= 1,
        ;
        assert(s >= 0);
        assert(w.ext_w() == w.width && w.ext_h() == w.height);
        assert(cols * w.ext_w() * s <= sw * SCALE_ONE);
        assert(cols * w.ext_h() * s <= sh * SCALE_ONE);
    } else {
        assert(cols * w.ext_w() * s == 0) by (nonlinear_arith)
            requires
                w.ext_w() == 0,
        ;
        assert(cols * w.ext_h() * s == 0) by (nonlinear_arith)
            requires
                w.ext_h() == 0,
        ;
    }
    lemma_centred_within(col, cols, sw, w.ext_w(), s);
    lemma_centred_within(row, cols, sh, w.ext_h(), s);
    let cx = centred(col, cols, sw, w.ext_w(), s);
    let cy = centred(row, cols, sh, w.ext_h(), s);
    assert(0 <= cx <= sw && 0 <= cy <= sh) by (nonlinear_arith)
        requires
            SCALE_ONE * cols * cx + cols * w.ext_w() * s <= SCALE_ONE * (col + 1) * sw,
            SCALE_ONE * cols * cy + cols * w.ext_h() * s <= SCALE_ONE * (row + 1) * sh,
            cols * (cx + 1) > col * sw,
            cols * (cy + 1) > row * sh,
            cols * w.ext_w() * s >= 0,
            cols * w.ext_h() * s >= 0,
            0 <= col < cols,
            0 <= row < cols,
            sw >= 0,
            sh >= 0,
    ;
    assert(0 <= s <= 0xffff * SCALE_ONE) by {
        if w.definite() {
            assert(s <= cols * w.width * s) by (nonlinear_arith)
                requires
                    s >= 0,
                    cols >= 1,
                    w.width >= 1,
            ;
        }
    }
}

/// A stepped layout at full progress is the expose layout, and at zero progress it
/// leaves every window as it was.
pub proof fn law_step_endpoints(
    before: Seq<Window>,
    full: Seq<Window>,
    stepped: Seq<Window>,
    unmoved: Seq<Window>,
    sw: int,
    sh: int,
)
    requires
        all_wf(before),
        exposed(before, full, sw, sh),
        exposed_step(before, stepped, sw, sh, 100),
        exposed_step(before, unmoved, sw, sh, 0),
    ensures
        stepped == full,
        unmoved == before,
{
    let (cols1, cells1) = choose|cols: int, cells: Seq<int>|
        is_grid_side(before.len() as int, cols) && is_assignment(before, cols, sw, sh, cells)
            && full.len() == before.len() && forall|i: int|
            0 <= i < before.len() ==> full[i] == #[trigger] expose_target(before[i], cells[i], cols, sw, sh);
    let (cols2, cells2) = choose|cols: int, cells: Seq<int>|
        is_grid_side(before.len() as int, cols) && is_assignment(before, cols, sw, sh, cells)
            && stepped.len() == before.len() && forall|i: int|
            0 <= i < before.len() ==> stepped[i] == #[trigger] step_target(before[i], cells[i], cols, sw, sh, 100);
    let (cols3, cells3) = choose|cols: int, cells: Seq<int>|
        is_grid_side(before.len() as int, cols) && is_assignment(before, cols, sw, sh, cells)
            && unmoved.len() == before.len() && forall|i: int|
            0 <= i < before.len() ==> unmoved[i] == #[trigger] step_target(before[i], cells[i], cols, sw, sh, 0);
    lemma_grid_side_unique(before.len() as int, cols1, cols2);
    lemma_assignment_unique(before, cols1, sw, sh, cells1, cells2);
    assert forall|i: int| 0 <= i < before.len() implies stepped[i] == full[i] by {
        let w = before[i];
        let f = fit_scale(w, cols1, sw, sh);
        vstd::arithmetic::div_mod::lemma_fundamental_div_mod_converse((f - w.scale) * 100, 100, f - w.scale, 0);
        let s = lerp(w.scale as int, f, 100);
        assert(s == f);
        let cx = centred(cells1[i] % cols1, cols1, sw, w.ext_w(), s);
        let cy = centred(cells1[i] / cols1, cols1, sh, w.ext_h(), s);
        vstd::arithmetic::div_mod::lemma_fundamental_div_mod_converse((cx - w.x) * 100, 100, cx - w.x, 0);
        vstd::arithmetic::div_mod::lemma_fundamental_div_mod_converse((cy - w.y) * 100, 100, cy - w.y, 0);
        assert(step_target(w, cells1[i], cols1, sw, sh, 100) == expose_target(w, cells1[i], cols1, sw, sh));
    }
    assert(stepped =~= full);
    assert forall|i: int| 0 <= i < before.len() implies unmoved[i] == before[i] by {
        let w = before[i];
        assert(w.wf());
        assert(step_target(w, cells3[i], cols3, sw, sh, 0) == w);
    }
    assert(unmoved =~= before);
}

} // verus!
