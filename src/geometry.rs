use vstd::prelude::*;

verus! {

/// Fixed-point unit of a scale: a scale of `SCALE_ONE` leaves a window at its size.
pub const SCALE_ONE: i64 = 1000;

/// The largest number of windows one layout call handles.
pub const MAX_WINDOWS: usize = 65536;

/// Bound on the absolute value of a window's coordinates.
pub const MAX_POS: i64 = 0x1_0000_0000;

/// Bound on the absolute value of a window's scale.
pub const MAX_SCALE: i64 = 0x1_0000_0000;

/// A snapshot of one window: its identity, its size (a zero side means the
/// size is not a definite value), its position and its uniform scale.
#[derive(Clone, Copy, Debug, PartialEq, Eq, Structural)]
pub struct Window {
    pub id: u32,
    pub width: u16,
    pub height: u16,
    pub x: i64,
    pub y: i64,
    pub scale: i64,
}

impl Window {
    /// Position and scale lie within the bounds that layouts are defined on.
    pub open spec fn wf(&self) -> bool {
        -MAX_POS <= self.x <= MAX_POS && -MAX_POS <= self.y <= MAX_POS && -MAX_SCALE
            <= self.scale <= MAX_SCALE
    }

    /// Both sides of the size are definite, positive values.
    pub open spec fn definite(&self) -> bool {
        self.width > 0 && self.height > 0
    }

    /// The width that layouts use: zero when the size is not definite.
    pub open spec fn ext_w(&self) -> int {
        if self.definite() {
            self.width as int
        } else {
            0
        }
    }

    /// The height that layouts use: zero when the size is not definite.
    pub open spec fn ext_h(&self) -> int {
        if self.definite() {
            self.height as int
        } else {
            0
        }
    }

    /// The area that layouts use.
    pub open spec fn area(&self) -> int {
        self.ext_w() * self.ext_h()
    }

    /// The same window moved to `(x, y)` and scaled to `scale`.
    pub open spec fn moved(&self, x: int, y: int, scale: int) -> Window {
        Window { x: x as i64, y: y as i64, scale: scale as i64, ..*self }
    }

    pub fn is_definite(&self) -> (r: bool)
        ensures
            r == self.definite(),
    {
        self.width > 0 && self.height > 0
    }

    /// Width used by layouts.
    pub fn layout_width(&self) -> (r: u16)
        ensures
            r == self.ext_w(),
    {
        if self.is_definite() {
            self.width
        } else {
            0
        }
    }

    /// Height used by layouts.
    pub fn layout_height(&self) -> (r: u16)
        ensures
            r == self.ext_h(),
    {
        if self.is_definite() {
            self.height
        } else {
            0
        }
    }

    /// Area used by layouts.
    pub fn layout_area(&self) -> (r: u64)
        ensures
            r == self.area(),
    {
        let w = self.layout_width() as u64;
        let h = self.layout_height() as u64;
        proof {
            assert(w * h <= 0xffff * 0xffff) by (nonlinear_arith)
                requires
                    w <= 0xffff,
                    h <= 0xffff,
            ;
        }
        w * h
    }
}

/// Inputs that a layout rejects instead of dividing by zero.
#[derive(Clone, Copy, Debug, PartialEq, Eq, Structural)]
pub enum LayoutError {
    /// The space or bin has a side of zero.
    EmptySpace,
    /// There are windows, but their total area is zero.
    ZeroWindowArea,
}

/// Total layout area of a sequence of windows.
pub open spec fn sum_area(ws: Seq<Window>) -> int
    decreases ws.len(),
{
    if ws.len() == 0 {
        0
    } else {
        sum_area(ws.drop_last()) + ws.last().area()
    }
}

proof fn lemma_sum_area_bound(ws: Seq<Window>)
    ensures
        0 <= sum_area(ws) <= ws.len() * 0xffff * 0xffff,
    decreases ws.len(),
{
    if ws.len() > 0 {
        lemma_sum_area_bound(ws.drop_last());
        let w = ws.last();
        assert(0 <= w.ext_w() * w.ext_h() <= 0xffff * 0xffff) by (nonlinear_arith)
            requires
                0 <= w.ext_w() <= 0xffff,
                0 <= w.ext_h() <= 0xffff,
        ;
    }
}

/// Total layout area of the windows.
pub fn total_area(windows: &Vec<Window>) -> (r: u64)
    requires
        windows.len() <= MAX_WINDOWS,
    ensures
        r == sum_area(windows@),
{
    let mut sum: u64 = 0;
    let mut i: usize = 0;
    while i < windows.len()
        invariant
            i <= windows.len(),
            windows.len() <= MAX_WINDOWS,
            sum == sum_area(windows@.take(i as int)),
        decreases windows.len() - i,
    {
        proof {
            assert(windows@.take(i as int + 1).drop_last() =~= windows@.take(i as int));
            lemma_sum_area_bound(windows@.take(i as int + 1));
            assert(i + 1 <= 0x10000);
            assert((i + 1) * 0xffff * 0xffff <= 0x10000 * 0xffff * 0xffff) by (nonlinear_arith)
                requires
                    i + 1 <= 0x10000,
            ;
        }
        sum = sum + windows[i].layout_area();
        i = i + 1;
    }
    proof {
        assert(windows@.take(i as int) =~= windows@);
    }
    sum
}

/// Every window of the sequence is well formed.
pub open spec fn all_wf(ws: Seq<Window>) -> bool {
    forall|i: int| 0 <= i < ws.len() ==> #[trigger] ws[i].wf()
}

/// The side of the square grid for `n` windows: the least `c` with `c * c >= n`.
pub open spec fn is_grid_side(n: int, c: int) -> bool {
    c >= 0 && c * c >= n && (c == 0 || (c - 1) * (c - 1) < n)
}

/// Side of the square grid that holds `n` windows: the ceiling of the square root of `n`.
pub fn grid_side(n: usize) -> (c: usize)
    requires
        n <= MAX_WINDOWS,
    ensures
        is_grid_side(n as int, c as int),
        c <= 256,
        n >= 1 ==> c >= 1,
{
    let mut c: usize = 0;
    while c * c < n
        invariant
            c <= 256,
            c * c <= 0x10000,
            c == 0 || (c - 1) * (c - 1) < n,
            n <= MAX_WINDOWS,
        decreases 256 - c,
    {
        proof {
            assert(c < 256 && (c + 1) * (c + 1) <= 0x10000) by (nonlinear_arith)
                requires
                    c * c < n,
                    n <= 0x10000,
                    c <= 256,
            ;
        }
        c = c + 1;
    }
    c
}

/// The greatest `r` with `r * r <= x`.
pub open spec fn is_isqrt(x: int, r: int) -> bool {
    r >= 0 && r * r <= x && x < (r + 1) * (r + 1)
}

/// Integer square root, rounded down.
pub fn isqrt(x: u128) -> (r: u64)
    ensures
        is_isqrt(x as int, r as int),
{
    let mut lo: u64 = 0;
    let mut hi: u128 = 0x1_0000_0000_0000_0000;
    proof {
        assert(x < hi * hi) by (nonlinear_arith)
            requires
                hi == 0x1_0000_0000_0000_0000u128,
                x < 0x1_0000_0000_0000_0000_0000_0000_0000_0000int,
        ;
    }
    while (lo as u128) + 1 < hi
        invariant
            (lo as int) * (lo as int) <= x,
            x < hi * hi,
            lo < hi,
            hi <= 0x1_0000_0000_0000_0000,
        decreases hi - lo,
    {
        let mid: u128 = (lo as u128 + hi) / 2;
        proof {
            assert(mid * mid <= 0xffff_ffff_ffff_ffff * 0xffff_ffff_ffff_ffffu128) by (
            nonlinear_arith)
                requires
                    mid <= 0xffff_ffff_ffff_ffff,
            ;
        }
        if mid * mid <= x {
            lo = mid as u64;
        } else {
            hi = mid;
        }
    }
    lo
}

/// Division rounding toward negative infinity.
pub fn floor_div(a: i128, b: i128) -> (r: i128)
    requires
        b > 0,
        a > i128::MIN,
    ensures
        r == a / b,
{
    if a >= 0 {
        a / b
    } else {
        let q = (-a - 1) / b;
        proof {
            let na: int = -a - 1;
            let b0: int = b as int;
            let q0: int = q as int;
            vstd::arithmetic::div_mod::lemma_fundamental_div_mod(na, b0);
            vstd::arithmetic::div_mod::lemma_mod_bound(na, b0);
            let m: int = na % b0;
            assert(na == b0 * q0 + m);
            assert(a == b0 * (-q0 - 1) + (b0 - 1 - m)) by (nonlinear_arith)
                requires
                    na == b0 * q0 + m,
                    na == -a - 1,
            ;
            vstd::arithmetic::div_mod::lemma_fundamental_div_mod_converse(
                a as int,
                b0,
                -q0 - 1,
                b0 - 1 - m,
            );
        }
        -q - 1
    }
}

/// Bounds on a quotient from bounds on the dividend.
pub proof fn lemma_div_range(a: int, b: int, m: int)
    requires
        b >= 1,
        -m <= a <= m,
    ensures
        -(m / b) - 1 <= a / b <= m / b,
{
    vstd::arithmetic::div_mod::lemma_div_is_ordered(a, m, b);
    vstd::arithmetic::div_mod::lemma_div_is_ordered(-m, a, b);
    vstd::arithmetic::div_mod::lemma_fundamental_div_mod(m, b);
    vstd::arithmetic::div_mod::lemma_fundamental_div_mod(-m, b);
    vstd::arithmetic::div_mod::lemma_mod_bound(m, b);
    vstd::arithmetic::div_mod::lemma_mod_bound(-m, b);
    let q1 = m / b;
    let q2 = (-m) / b;
    assert(q2 >= -q1 - 1) by (nonlinear_arith)
        requires
            m == b * q1 + m % b,
            -m == b * q2 + (-m) % b,
            0 <= m % b < b,
            0 <= (-m) % b < b,
            b >= 1,
    ;
}

} // verus!
