use vstd::prelude::*;
use crate::geometry::{isqrt, is_isqrt, sum_area, total_area, LayoutError, Window, MAX_WINDOWS, SCALE_ONE};

verus! {

/// A bin of fixed capacity and the windows (indices into the window list) put in it.
pub struct Bin {
    pub width: u16,
    pub height: u16,
    pub windows: Vec<usize>,
}

/// A window's layout size is within a `bw` by `bh` capacity.
pub open spec fn fits_in(w: Window, bw: int, bh: int) -> bool {
    w.ext_w() <= bw && w.ext_h() <= bh
}

impl Bin {
    /// An empty bin of the given capacity.
    pub fn new(width: u16, height: u16) -> (r: Bin)
        ensures
            r.width == width,
            r.height == height,
            r.windows@.len() == 0,
    {
        Bin { width, height, windows: Vec::new() }
    }

    /// Puts window `index` in the bin when its size is within the bin's capacity
    /// (the capacity is not reduced by what the bin already holds).
    pub fn add(&mut self, index: usize, window: &Window) -> (r: bool)
        ensures
            r == fits_in(*window, old(self).width as int, old(self).height as int),
            final(self).width == old(self).width,
            final(self).height == old(self).height,
            final(self).windows@ == if r {
                old(self).windows@.push(index)
            } else {
                old(self).windows@
            },
    {
        if self.can_fit(window) {
            self.windows.push(index);
            true
        } else {
            false
        }
    }

    /// Whether the window's size is within the bin's capacity.
    pub fn can_fit(&self, window: &Window) -> (r: bool)
        ensures
            r == fits_in(*window, self.width as int, self.height as int),
    {
        window.layout_width() <= self.width && window.layout_height() <= self.height
    }

    /// The area the bin's capacity leaves around the window.
    pub fn empty_space_after_insertion(&self, window: &Window) -> (r: i64)
        ensures
            r == (self.width - window.ext_w()) * (self.height - window.ext_h()),
    {
        let dw = self.width as i64 - window.layout_width() as i64;
        let dh = self.height as i64 - window.layout_height() as i64;
        proof {
            assert(-0xffff * 0xffff <= dw * dh <= 0xffff * 0xffff) by (nonlinear_arith)
                requires
                    -0xffff <= dw <= 0xffff,
                    -0xffff <= dh <= 0xffff,
            ;
        }
        dw * dh
    }
}

/// No entry of `perm` before `k` is `j`.
pub open spec fn unused(perm: Seq<int>, k: int, j: int) -> bool {
    forall|m: int| 0 <= m < k ==> perm[m] != j
}

/// `j` is the first of the windows not yet taken with the largest area.
pub open spec fn is_first_largest(ws: Seq<Window>, perm: Seq<int>, k: int, j: int) -> bool {
    &&& 0 <= j < ws.len()
    &&& unused(perm, k, j)
    &&& forall|m: int|
        0 <= m < ws.len() && unused(perm, k, m) ==> ws[j].area() >= #[trigger] ws[m].area()
    &&& forall|m: int| 0 <= m < j && unused(perm, k, m) ==> ws[j].area() > #[trigger] ws[m].area()
}

/// `perm` lists the windows by decreasing area, equal areas in their input order.
pub open spec fn is_area_order(ws: Seq<Window>, perm: Seq<int>) -> bool {
    &&& perm.len() == ws.len()
    &&& forall|k: int| 0 <= k < perm.len() ==> #[trigger] is_first_largest(ws, perm, k, perm[k])
}

/// The order by decreasing area is a stable sort: it never puts a smaller window
/// first, it keeps equal ones in their input order, and it lists each window once.
pub proof fn law_area_order_sorted(ws: Seq<Window>, perm: Seq<int>)
    requires
        is_area_order(ws, perm),
    ensures
        forall|k: int, l: int|
            0 <= k < l < perm.len() ==> ws[perm[k]].area() > ws[perm[l]].area() || (
            ws[perm[k]].area() == ws[perm[l]].area() && perm[k] < perm[l]),
        forall|k: int| 0 <= k < perm.len() ==> 0 <= #[trigger] perm[k] < ws.len(),
{
    assert forall|k: int, l: int| 0 <= k < l < perm.len() implies ws[perm[k]].area() > ws[perm[l]].area() || (
    ws[perm[k]].area() == ws[perm[l]].area() && perm[k] < perm[l]) by {
        assert(is_first_largest(ws, perm, k, perm[k]));
        assert(is_first_largest(ws, perm, l, perm[l]));
        assert(unused(perm, k, perm[l]));
        assert(perm[k] != perm[l]);
    }
    assert forall|k: int| 0 <= k < perm.len() implies 0 <= #[trigger] perm[k] < ws.len() by {
        assert(is_first_largest(ws, perm, k, perm[k]));
    }
}

fn first_largest(windows: &Vec<Window>, used: &Vec<bool>, perm: Ghost<Seq<int>>, k: Ghost<int>) -> (r: usize)
    requires
        used.len() == windows.len(),
        windows.len() <= MAX_WINDOWS,
        forall|j: int| 0 <= j < windows.len() ==> used@[j] == !unused(perm@, k@, j),
        exists|j: int| 0 <= j < windows.len() && unused(perm@, k@, j),
    ensures
        is_first_largest(windows@, perm@, k@, r as int),
{
    let n = windows.len();
    let mut best: usize = 0;
    let mut best_area: u64 = 0;
    let mut found = false;
    let mut j: usize = 0;
    while j < n
        invariant
            n == windows.len(),
            used.len() == n,
            j <= n,
            forall|m: int| 0 <= m < n ==> used@[m] == !unused(perm@, k@, m),
            found ==> best < j && unused(perm@, k@, best as int) && best_area == windows@[best as int].area(),
            !found ==> forall|m: int| 0 <= m < j ==> !unused(perm@, k@, m),
            found ==> forall|m: int|
                0 <= m < j && unused(perm@, k@, m) ==> best_area >= #[trigger] windows@[m].area(),
            found ==> forall|m: int|
                0 <= m < best && unused(perm@, k@, m) ==> best_area > #[trigger] windows@[m].area(),
        decreases n - j,
    {
        if !used[j] {
            let a = windows[j].layout_area();
            if !found || a > best_area {
                best = j;
                best_area = a;
                found = true;
            }
        }
        j = j + 1;
    }
    best
}

/// Sorts the windows by decreasing area, keeping equal areas in their order.
fn sort_by_area(windows: &mut Vec<Window>) -> (perm: Ghost<Seq<int>>)
    requires
        old(windows).len() <= MAX_WINDOWS,
    ensures
        is_area_order(old(windows)@, perm@),
        final(windows).len() == old(windows).len(),
        forall|i: int| 0 <= i < final(windows).len() ==> final(windows)@[i] == old(windows)@[perm@[i]],
{
    let n = windows.len();
    let ghost ws = windows@;
    let mut sorted: Vec<Window> = Vec::new();
    let mut used: Vec<bool> = vec![false; n];
    let ghost mut perm: Seq<int> = Seq::empty();
    let ghost mut taken: Set<int> = Set::empty();
    let mut k: usize = 0;
    while k < n
        invariant
            n == windows.len(),
            windows@ == ws,
            n <= MAX_WINDOWS,
            k <= n,
            used.len() == n,
            sorted.len() == k,
            perm.len() == k,
            taken.finite(),
            taken.len() == k,
            forall|j: int| taken.contains(j) ==> 0 <= j < n,
            forall|j: int|
                0 <= j < n ==> (#[trigger] used@[j] == !unused(perm, k as int, j) && used@[j]
                    == taken.contains(j)),
            forall|m: int| 0 <= m < k ==> #[trigger] is_first_largest(ws, perm, m, perm[m]),
            forall|m: int| 0 <= m < k ==> sorted@[m] == ws[perm[m]],
        decreases n - k,
    {
        proof {
            let range = Set::new(|j: int| 0 <= j < n);
            if forall|j: int| 0 <= j < n ==> !unused(perm, k as int, j) {
                assert(range.subset_of(taken)) by {
                    assert forall|j: int| range.contains(j) implies taken.contains(j) by {
                        assert(!unused(perm, k as int, j));
                        assert(used@[j] == taken.contains(j));
                    }
                }
                vstd::set_lib::lemma_int_range(0, n as int);
                assert(range =~= vstd::set_lib::set_int_range(0, n as int));
                vstd::set_lib::lemma_len_subset(range, taken);
                assert(false);
            }
            assert forall|j: int| 0 <= j < n implies used@[j] == !unused(perm, k as int, j) by {}
        }
        let j = first_largest(windows, &used, Ghost(perm), Ghost(k as int));
        used.set(j, true);
        sorted.push(windows[j]);
        proof {
            let old_perm = perm;
            perm = perm.push(j as int);
            taken = taken.insert(j as int);
            assert forall|m: int| 0 <= m < k implies perm[m] == old_perm[m] by {}
            assert forall|jj: int| 0 <= jj < n implies (#[trigger] used@[jj] == !unused(perm, k + 1, jj)
                && used@[jj] == taken.contains(jj)) by {
                if jj == j as int {
                    assert(perm[k as int] == j as int);
                } else {
                    assert(unused(perm, k + 1, jj) == unused(old_perm, k as int, jj));
                }
            }
            assert forall|m: int| 0 <= m < k + 1 implies #[trigger] is_first_largest(ws, perm, m, perm[m]) by {
                assert forall|jj: int| unused(perm, m, jj) == unused(old_perm, m, jj) by {}
                if m < k {
                    assert(is_first_largest(ws, old_perm, m, old_perm[m]));
                }
            }
        }
        k = k + 1;
    }
    *windows = sorted;
    Ghost(perm)
}

/// The windows of a list in the order `perm` gives.
pub open spec fn permuted(ws: Seq<Window>, perm: Seq<int>) -> Seq<Window> {
    Seq::new(perm.len(), |i: int| ws[perm[i]])
}

/// The row walk of one bin: the cursor `(x, y)` and the tallest height of the row
/// before entry `k` of `idxs` is placed, starting from `(0, 0)` with row height `m0`.
/// A window advances the cursor by its scaled width, unless twice that width would
/// pass the bin's width: then the walk moves to the next row.
pub open spec fn shelf_state(
    ws: Seq<Window>,
    idxs: Seq<usize>,
    s: int,
    bw: int,
    m0: int,
    k: nat,
) -> (int, int, int)
    decreases k,
{
    if k == 0 {
        (0, 0, m0)
    } else {
        let prev = shelf_state(ws, idxs, s, bw, m0, (k - 1) as nat);
        let w = ws[idxs[k - 1] as int];
        let sw = w.ext_w() * s / (SCALE_ONE as int);
        let sh = w.ext_h() * s / (SCALE_ONE as int);
        let m = if sh > prev.2 {
            sh
        } else {
            prev.2
        };
        if prev.0 + 2 * sw > bw {
            (0, prev.1 + m, 0)
        } else {
            (prev.0 + sw, prev.1, m)
        }
    }
}

/// The row height the walk of bin `b` starts from: the walk of each bin goes on
/// with the row height the previous bin's walk ended with.
pub open spec fn carry_in(ws: Seq<Window>, bins: Seq<Bin>, s: int, bw: int, b: nat) -> int
    decreases b,
{
    if b == 0 {
        0
    } else {
        shelf_state(
            ws,
            bins[b - 1].windows@,
            s,
            bw,
            carry_in(ws, bins, s, bw, (b - 1) as nat),
            bins[b - 1].windows@.len(),
        ).2
    }
}

/// Each bin has the capacity asked for and holds only windows within it, each
/// window within it is in exactly one bin, once, and the others are in none.
pub open spec fn bins_valid(ws: Seq<Window>, bins: Seq<Bin>, bw: int, bh: int) -> bool {
    &&& forall|b: int| 0 <= b < bins.len() ==> #[trigger] bins[b].width == bw && bins[b].height == bh
    &&& forall|b: int, k: int|
        0 <= b < bins.len() && 0 <= k < bins[b].windows@.len() ==> {
            let i = #[trigger] bins[b].windows@[k] as int;
            0 <= i < ws.len() && fits_in(ws[i], bw, bh)
        }
    &&& forall|b1: int, k1: int, b2: int, k2: int|
        0 <= b1 < bins.len() && 0 <= k1 < bins[b1].windows@.len() && 0 <= b2 < bins.len() && 0
            <= k2 < bins[b2].windows@.len() && #[trigger] bins[b1].windows@[k1]
            == #[trigger] bins[b2].windows@[k2] ==> b1 == b2 && k1 == k2
    &&& forall|i: int|
        0 <= i < ws.len() && #[trigger] fits_in(ws[i], bw, bh) ==> exists|b: int, k: int|
            0 <= b < bins.len() && 0 <= k < bins[b].windows@.len() && bins[b].windows@[k] == i
}

/// The outcome of the shelf packer: `after` is `before` sorted by decreasing area,
/// `bins` holds the sorted windows as `bins_valid` and `greedy_bins` say, every window in a bin is
/// at its place in its bin's row walk at the common scale `s`, the square root of
/// the bins' total area over the windows' area, and the others are unchanged.
pub open spec fn shelf_packed(before: Seq<Window>, after: Seq<Window>, bins: Seq<Bin>, bw: int, bh: int) -> bool {
    exists|perm: Seq<int>, s: int|
        #![trigger is_area_order(before, perm), is_isqrt(bw * bh * bins.len() * 1_000_000 / sum_area(before), s)]
        {
            let sorted = permuted(before, perm);
            &&& is_area_order(before, perm)
            &&& is_isqrt(bw * bh * bins.len() * 1_000_000 / sum_area(before), s)
            &&& after.len() == before.len()
            &&& bins_valid(sorted, bins, bw, bh)
            &&& greedy_bins(sorted, bins, bw, bh)
            &&& forall|i: int| 0 <= i < after.len() && !fits_in(sorted[i], bw, bh) ==> after[i] == sorted[i]
            &&& forall|b: int, k: int|
                0 <= b < bins.len() && 0 <= k < bins[b].windows@.len() ==> {
                    let i = #[trigger] bins[b].windows@[k] as int;
                    let st = shelf_state(sorted, bins[b].windows@, s, bw, carry_in(sorted, bins, s, bw, b as nat), k as nat);
                    after[i] == sorted[i].moved(st.0, st.1, s)
                }
        }
}

proof fn lemma_distinct_len(s: Seq<usize>, n: int)
    requires
        forall|k1: int, k2: int| 0 <= k1 < s.len() && 0 <= k2 < s.len() && s[k1] == s[k2] ==> k1 == k2,
        forall|k: int| 0 <= k < s.len() ==> s[k] < n,
        n >= 0,
    ensures
        s.len() <= n,
{
    let si = s.map_values(|v: usize| v as int);
    assert(si.no_duplicates());
    si.unique_seq_to_set();
    let range = vstd::set_lib::set_int_range(0, n);
    vstd::set_lib::lemma_int_range(0, n);
    assert(si.to_set().subset_of(range));
    vstd::set_lib::lemma_len_subset(si.to_set(), range);
}

/// The indices below `i` of the windows within a `bw` by `bh` capacity, in order.
pub open spec fn fitting_upto(ws: Seq<Window>, bw: int, bh: int, i: int) -> Seq<usize>
    decreases i,
{
    if i <= 0 {
        Seq::empty()
    } else if fits_in(ws[i - 1], bw, bh) {
        fitting_upto(ws, bw, bh, i - 1).push((i - 1) as usize)
    } else {
        fitting_upto(ws, bw, bh, i - 1)
    }
}

/// How many windows below `i` exceed a `bw` by `bh` capacity.
pub open spec fn oversized_upto(ws: Seq<Window>, bw: int, bh: int, i: int) -> int
    decreases i,
{
    if i <= 0 {
        0
    } else if fits_in(ws[i - 1], bw, bh) {
        oversized_upto(ws, bw, bh, i - 1)
    } else {
        oversized_upto(ws, bw, bh, i - 1) + 1
    }
}

/// The best-fit assignment with bins of one capacity, whose capacity never shrinks:
/// every bin leaves the same area around a window, so a window within the capacity
/// goes to the first bin, opening it when there is none yet, and a window beyond it
/// opens a bin that stays empty. So the first bin holds every window within the
/// capacity, in order, and there is one more bin for each window beyond it.
pub open spec fn greedy_bins(ws: Seq<Window>, bins: Seq<Bin>, bw: int, bh: int) -> bool {
    &&& ws.len() >= 1 ==> bins.len() == oversized_upto(ws, bw, bh, ws.len() as int) + if fits_in(
        ws[0],
        bw,
        bh,
    ) {
        1int
    } else {
        0int
    }
    &&& ws.len() >= 1 ==> bins[0].windows@ == fitting_upto(ws, bw, bh, ws.len() as int)
    &&& forall|b: int| 1 <= b < bins.len() ==> (#[trigger] bins[b].windows@).len() == 0
}

/// The bins of the greedy best-fit assignment of `ws`, with, for each window, its
/// bin (`-1` when none) and its place there.
fn assign_bins(ws: &Vec<Window>, bin_width: u16, bin_height: u16) -> (r: (Vec<Bin>, Ghost<Seq<int>>, Ghost<Seq<int>>))
    requires
        ws.len() <= MAX_WINDOWS,
    ensures
        ({
            let (bins, slot, pos) = r;
            let bw = bin_width as int;
            let bh = bin_height as int;
            &&& bins.len() <= ws.len()
            &&& ws.len() >= 1 ==> bins.len() >= 1
            &&& slot@.len() == ws.len()
            &&& pos@.len() == ws.len()
            &&& bins_valid(ws@, bins@, bw, bh)
            &&& greedy_bins(ws@, bins@, bw, bh)
            &&& forall|b: int, k: int|
                0 <= b < bins.len() && 0 <= k < bins@[b].windows@.len() ==> {
                    let j = #[trigger] bins@[b].windows@[k] as int;
                    slot@[j] == b && pos@[j] == k
                }
            &&& forall|j: int|
                0 <= j < ws.len() && #[trigger] fits_in(ws@[j], bw, bh) ==> 0 <= slot@[j] < bins.len()
                    && 0 <= pos@[j] < bins@[slot@[j]].windows@.len() && bins@[slot@[j]].windows@[pos@[j]] == j
            &&& forall|j: int| 0 <= j < ws.len() && !fits_in(ws@[j], bw, bh) ==> #[trigger] slot@[j] == -1
        }),
{
    let n = ws.len();
    let ghost sorted = ws@;
    let ghost bw = bin_width as int;
    let ghost bh = bin_height as int;
    let mut bins: Vec<Bin> = Vec::new();
    let ghost mut slot: Seq<int> = Seq::empty();
    let ghost mut pos: Seq<int> = Seq::empty();
    let mut i: usize = 0;
    while i < n
        invariant
            bw == bin_width as int,
            bh == bin_height as int,
            n == ws.len(),
            ws@ == sorted,
            n <= MAX_WINDOWS,
            i <= n,
            bins.len() <= i,
            i >= 1 ==> bins.len() >= 1,
            slot.len() == i,
            pos.len() == i,
            forall|b: int| 0 <= b < bins.len() ==> #[trigger] bins@[b].width == bin_width && bins@[b].height == bin_height,
            forall|b: int, k: int|
                0 <= b < bins.len() && 0 <= k < bins@[b].windows@.len() ==> {
                    let j = #[trigger] bins@[b].windows@[k] as int;
                    0 <= j < i && slot[j] == b && pos[j] == k && fits_in(sorted[j], bw, bh)
                },
            forall|j: int|
                0 <= j < i && #[trigger] fits_in(sorted[j], bw, bh) ==> 0 <= slot[j] < bins.len()
                    && 0 <= pos[j] < bins@[slot[j]].windows@.len() && bins@[slot[j]].windows@[pos[j]]
                    == j,
            forall|j: int| 0 <= j < i && !fits_in(sorted[j], bw, bh) ==> #[trigger] slot[j] == -1,
            i >= 1 ==> bins.len() == oversized_upto(sorted, bw, bh, i as int) + if fits_in(sorted[0], bw, bh) {
                1int
            } else {
                0int
            },
            i >= 1 ==> bins@[0].windows@ == fitting_upto(sorted, bw, bh, i as int),
            forall|b: int| 1 <= b < bins.len() ==> (#[trigger] bins@[b].windows@).len() == 0,
        decreases n - i,
    {
        let w = ws[i];
        let ghost old_bins = bins@;
        let mut best: usize = 0;
        let mut found = false;
        let mut min_space: i64 = i64::MAX;
        let mut j: usize = 0;
        while j < bins.len()
            invariant
                bw == bin_width as int,
                bh == bin_height as int,
                j <= bins.len(),
                found ==> best == 0 && 0 < bins.len() && fits_in(w, bw, bh) && min_space == (
                bin_width - w.ext_w()) * (bin_height - w.ext_h()),
                !found ==> min_space == i64::MAX,
                j > 0 && fits_in(w, bw, bh) ==> found,
                bins@ == old_bins,
                forall|b: int| 0 <= b < bins.len() ==> #[trigger] bins@[b].width == bin_width && bins@[b].height == bin_height,
            decreases bins.len() - j,
        {
            if bins[j].can_fit(&w) {
                let space = bins[j].empty_space_after_insertion(&w);
                proof {
                    assert((bin_width - w.ext_w()) * (bin_height - w.ext_h()) <= 0xffff * 0xffff) by (nonlinear_arith)
                        requires
                            0 <= bin_width - w.ext_w() <= 0xffff,
                            0 <= bin_height - w.ext_h() <= 0xffff,
                    ;
                }
                if space < min_space {
                    best = j;
                    min_space = space;
                    found = true;
                }
            }
            j = j + 1;
        }
        if found {
            let ghost len = bins@[best as int].windows@.len();
            let mut target = bins.remove(best);
            let added = target.add(i, &w);
            bins.insert(best, target);
            proof {
                assert(added);
                slot = slot.push(best as int);
                pos = pos.push(len as int);
                assert(bins@ == old_bins.update(best as int, target));
                assert(fitting_upto(sorted, bw, bh, i + 1) == fitting_upto(sorted, bw, bh, i as int).push(i));
                assert(oversized_upto(sorted, bw, bh, i + 1) == oversized_upto(sorted, bw, bh, i as int));
                assert(bins@[0].windows@ == old_bins[0].windows@.push(i));
            }
        } else {
            let mut nb = Bin::new(bin_width, bin_height);
            let added = nb.add(i, &w);
            bins.push(nb);
            proof {
                if i == 0 {
                    assert(fitting_upto(sorted, bw, bh, 0) == Seq::<usize>::empty());
                    assert(oversized_upto(sorted, bw, bh, 0) == 0);
                    if added {
                        assert(nb.windows@ == Seq::<usize>::empty().push(0usize));
                    }
                } else {
                    assert(old_bins.len() > 0);
                    assert(!fits_in(w, bw, bh));
                    assert(fitting_upto(sorted, bw, bh, i + 1) == fitting_upto(sorted, bw, bh, i as int));
                    assert(oversized_upto(sorted, bw, bh, i + 1) == oversized_upto(sorted, bw, bh, i as int) + 1);
                }
                if added {
                    slot = slot.push(old_bins.len() as int);
                    pos = pos.push(0);
                } else {
                    slot = slot.push(-1);
                    pos = pos.push(-1);
                }
                assert(bins@ == old_bins.push(nb));
            }
        }
        i = i + 1;
    }
    proof {
        assert(bins_valid(sorted, bins@, bw, bh)) by {
            assert forall|b1: int, k1: int, b2: int, k2: int|
                0 <= b1 < bins.len() && 0 <= k1 < bins@[b1].windows@.len() && 0 <= b2 < bins.len() && 0
                    <= k2 < bins@[b2].windows@.len() && #[trigger] bins@[b1].windows@[k1]
                    == #[trigger] bins@[b2].windows@[k2] implies b1 == b2 && k1 == k2 by {
                let j = bins@[b1].windows@[k1] as int;
                assert(slot[j] == b1 && pos[j] == k1);
                assert(slot[j] == b2 && pos[j] == k2);
            }
            assert forall|j: int|
                0 <= j < n && #[trigger] fits_in(sorted[j], bw, bh) implies exists|b: int, k: int|
                    0 <= b < bins.len() && 0 <= k < bins@[b].windows@.len() && bins@[b].windows@[k] == j by {
                assert(bins@[slot[j]].windows@[pos[j]] == j);
            }
        }
    }
    (bins, Ghost(slot), Ghost(pos))
}

/// Lays out the windows of one bin in rows, from `(0, 0)` with row height `m0`, and
/// returns the row height the walk ends with.
#[verifier::rlimit(40)]
fn walk_bin(
    windows: &mut Vec<Window>,
    sorted: Ghost<Seq<Window>>,
    idxs: &Vec<usize>,
    s: i64,
    bin_width: u16,
    m0: i64,
) -> (m: i64)
    requires
        old(windows).len() == sorted@.len(),
        old(windows).len() <= MAX_WINDOWS,
        0 <= s <= 0x4_0000_0000,
        0 <= m0 <= 0x200_0000_0000,
        forall|k1: int, k2: int|
            0 <= k1 < idxs.len() && 0 <= k2 < idxs.len() && idxs@[k1] == idxs@[k2] ==> k1 == k2,
        forall|k: int| 0 <= k < idxs.len() ==> idxs@[k] < old(windows).len(),
        forall|k: int| 0 <= k < idxs.len() ==> old(windows)@[#[trigger] idxs@[k] as int] == sorted@[idxs@[k] as int],
    ensures
        final(windows).len() == old(windows).len(),
        m == shelf_state(sorted@, idxs@, s as int, bin_width as int, m0 as int, idxs@.len()).2,
        0 <= m <= 0x200_0000_0000,
        forall|j: int|
            0 <= j < old(windows).len() && (forall|k: int| 0 <= k < idxs.len() ==> idxs@[k] != j)
                ==> #[trigger] final(windows)@[j] == old(windows)@[j],
        forall|k: int|
            0 <= k < idxs.len() ==> {
                let j = #[trigger] idxs@[k] as int;
                let st = shelf_state(sorted@, idxs@, s as int, bin_width as int, m0 as int, k as nat);
                final(windows)@[j] == sorted@[j].moved(st.0, st.1, s as int)
            },
{
    let ghost bw = bin_width as int;
    let ghost start = windows@;
    let n = windows.len();
    let len = idxs.len();
    proof {
        lemma_distinct_len(idxs@, n as int);
    }
    let mut x: i64 = 0;
    let mut y: i64 = 0;
    let mut m: i64 = m0;
    let mut k: usize = 0;
    while k < len
        invariant
            bw == bin_width as int,
            n == windows.len(),
            n == sorted@.len(),
            n == start.len(),
            len == idxs.len(),
            len <= n,
            n <= MAX_WINDOWS,
            k <= len,
            0 <= s <= 0x4_0000_0000,
            (x as int, y as int, m as int) == shelf_state(sorted@, idxs@, s as int, bw, m0 as int, k as nat),
            0 <= x <= bw,
            0 <= y <= k * 0x200_0000_0000,
            0 <= m <= 0x200_0000_0000,
            forall|k1: int, k2: int|
                0 <= k1 < idxs.len() && 0 <= k2 < idxs.len() && idxs@[k1] == idxs@[k2] ==> k1 == k2,
            forall|k2: int| 0 <= k2 < idxs.len() ==> idxs@[k2] < n,
            forall|k2: int| 0 <= k2 < idxs.len() ==> start[#[trigger] idxs@[k2] as int] == sorted@[idxs@[k2] as int],
            forall|j: int|
                0 <= j < n && (forall|k2: int| 0 <= k2 < k ==> idxs@[k2] != j) ==> #[trigger] windows@[j] == start[j],
            forall|k2: int|
                0 <= k2 < k ==> {
                    let j = #[trigger] idxs@[k2] as int;
                    let st = shelf_state(sorted@, idxs@, s as int, bw, m0 as int, k2 as nat);
                    windows@[j] == sorted@[j].moved(st.0, st.1, s as int)
                },
        decreases len - k,
    {
        let idx = idxs[k];
        let w = windows[idx];
        proof {
            assert forall|k2: int| 0 <= k2 < k implies idxs@[k2] != idx by {}
            assert(w == sorted@[idx as int]);
        }
        let ghost before_set = windows@;
        windows.set(idx, Window { x, y, scale: s, ..w });
        proof {
            assert(0 <= w.ext_w() * s <= 0x1_0000 * 0x4_0000_0000) by (nonlinear_arith)
                requires
                    0 <= w.ext_w() <= 0xffff,
                    0 <= s <= 0x4_0000_0000,
            ;
            assert(0 <= w.ext_h() * s <= 0x1_0000 * 0x4_0000_0000) by (nonlinear_arith)
                requires
                    0 <= w.ext_h() <= 0xffff,
                    0 <= s <= 0x4_0000_0000,
            ;
        }
        let sw: i64 = w.layout_width() as i64 * s / 1000;
        let sh: i64 = w.layout_height() as i64 * s / 1000;
        proof {
            vstd::arithmetic::div_mod::lemma_div_is_ordered(w.ext_w() * s, 0x1_0000int * 0x4_0000_0000, 1000);
            vstd::arithmetic::div_mod::lemma_div_is_ordered(w.ext_h() * s, 0x1_0000int * 0x4_0000_0000, 1000);
            vstd::arithmetic::div_mod::lemma_div_pos_is_pos(w.ext_w() * s, 1000);
            vstd::arithmetic::div_mod::lemma_div_pos_is_pos(w.ext_h() * s, 1000);
        }
        if sh > m {
            m = sh;
        }
        if x + 2 * sw > bin_width as i64 {
            x = 0;
            y = y + m;
            m = 0;
        } else {
            x = x + sw;
        }
        proof {
            assert(k * 0x200_0000_0000 + 0x200_0000_0000 == (k + 1) * 0x200_0000_0000) by (nonlinear_arith);
            assert forall|j: int| 0 <= j < n && j != idx implies windows@[j] == before_set[j] by {}
            assert forall|k2: int| 0 <= k2 < k + 1 implies {
                let j = #[trigger] idxs@[k2] as int;
                let st = shelf_state(sorted@, idxs@, s as int, bw, m0 as int, k2 as nat);
                windows@[j] == sorted@[j].moved(st.0, st.1, s as int)
            } by {
                if k2 < k {
                    assert(idxs@[k2] != idx);
                }
            }
        }
        k = k + 1;
    }
    m
}

/// Distributes the windows over bins of capacity `bin_width` by `bin_height`: the
/// windows are sorted by decreasing area (a stable sort), each goes to the bin that
/// leaves the least area around it among those whose capacity it is within, or else
/// opens a new bin; then each bin's windows are laid out in rows at one scale, the
/// square root of the bins' total area over the windows' total area.
pub fn bin_pack(windows: &mut Vec<Window>, bin_width: u16, bin_height: u16) -> (r: Result<Vec<Bin>, LayoutError>)
    requires
        old(windows).len() <= MAX_WINDOWS,
    ensures
        (bin_width == 0 || bin_height == 0) <==> r is Err && r->Err_0 == LayoutError::EmptySpace,
        (bin_width > 0 && bin_height > 0 && old(windows).len() > 0 && sum_area(old(windows)@) == 0)
            <==> r is Err && r->Err_0 == LayoutError::ZeroWindowArea,
        r is Err ==> final(windows)@ == old(windows)@,
        r is Ok && old(windows).len() == 0 ==> r->Ok_0@.len() == 0 && final(windows)@ == old(windows)@,
        r is Ok && old(windows).len() > 0 ==> shelf_packed(
            old(windows)@,
            final(windows)@,
            r->Ok_0@,
            bin_width as int,
            bin_height as int,
        ),
{
    let n = windows.len();
    if bin_width == 0 || bin_height == 0 {
        return Err(LayoutError::EmptySpace);
    }
    if n == 0 {
        return Ok(Vec::new());
    }
    let total = total_area(windows);
    if total == 0 {
        return Err(LayoutError::ZeroWindowArea);
    }
    let ghost before = windows@;
    let perm = sort_by_area(windows);
    let ghost sorted = windows@;
    proof {
        assert(sorted =~= permuted(before, perm@));
    }
    let ghost bw = bin_width as int;
    let ghost bh = bin_height as int;
    let (bins, slot, pos) = assign_bins(windows, bin_width, bin_height);
    let nbins = bins.len();
    proof {
        assert(bin_width as u128 * bin_height as u128 <= 0xffff * 0xffff) by (nonlinear_arith)
            requires
                bin_width <= 0xffff,
                bin_height <= 0xffff,
        ;
        assert(bin_width as u128 * bin_height as u128 * nbins as u128 <= 0xffff * 0xffff * 0x10000) by (nonlinear_arith)
            requires
                bin_width as u128 * bin_height as u128 <= 0xffff * 0xffff,
                nbins <= 0x10000,
        ;
    }
    let area = bin_width as u128 * bin_height as u128 * nbins as u128 * 1_000_000;
    let s = isqrt(area / total as u128);
    proof {
        vstd::arithmetic::div_mod::lemma_div_is_ordered_by_denominator(area as int, 1, total as int);
        if s > 0x4_0000_0000 {
            assert(s * s > 0x4_0000_0000 * 0x4_0000_0000) by (nonlinear_arith)
                requires
                    s > 0x4_0000_0000,
            ;
        }
    }
    let s = s as i64;
    let mut m: i64 = 0;
    let mut b: usize = 0;
    while b < nbins
        invariant
            bw == bin_width as int,
            bh == bin_height as int,
            nbins == bins.len(),
            n == windows.len(),
            n == sorted.len(),
            n <= MAX_WINDOWS,
            b <= nbins,
            0 <= s <= 0x4_0000_0000,
            m == carry_in(sorted, bins@, s as int, bw, b as nat),
            0 <= m <= 0x200_0000_0000,
            slot@.len() == n,
            pos@.len() == n,
            bins_valid(sorted, bins@, bw, bh),
            forall|b2: int, k: int|
                0 <= b2 < bins.len() && 0 <= k < bins@[b2].windows@.len() ==> {
                    let j = #[trigger] bins@[b2].windows@[k] as int;
                    slot@[j] == b2 && pos@[j] == k
                },
            forall|j: int|
                0 <= j < n && #[trigger] fits_in(sorted[j], bw, bh) ==> 0 <= slot@[j] < bins.len()
                    && 0 <= pos@[j] < bins@[slot@[j]].windows@.len() && bins@[slot@[j]].windows@[pos@[j]] == j,
            forall|j: int| 0 <= j < n && !fits_in(sorted[j], bw, bh) ==> #[trigger] slot@[j] == -1,
            forall|j: int| 0 <= j < n && !(0 <= #[trigger] slot@[j] < b) ==> windows@[j] == sorted[j],
            forall|b2: int, k: int|
                0 <= b2 < b && 0 <= k < bins@[b2].windows@.len() ==> {
                    let j = #[trigger] bins@[b2].windows@[k] as int;
                    let st = shelf_state(sorted, bins@[b2].windows@, s as int, bw, carry_in(sorted, bins@, s as int, bw, b2 as nat), k as nat);
                    windows@[j] == sorted[j].moved(st.0, st.1, s as int)
                },
        decreases nbins - b,
    {
        let ghost pre = windows@;
        let ghost cur = bins@[b as int].windows@;
        proof {
            assert forall|k1: int, k2: int| 0 <= k1 < cur.len() && 0 <= k2 < cur.len() && cur[k1] == cur[k2] implies k1 == k2 by {
                assert(bins@[b as int].windows@[k1] == bins@[b as int].windows@[k2]);
            }
            assert forall|k: int| 0 <= k < cur.len() implies cur[k] < n && pre[#[trigger] cur[k] as int] == sorted[cur[k] as int] by {
                assert(bins@[b as int].windows@[k] == cur[k]);
                assert(slot@[cur[k] as int] == b);
            }
        }
        m = walk_bin(windows, Ghost(sorted), &bins[b].windows, s, bin_width, m);
        proof {
            assert forall|j: int| 0 <= j < n && !(0 <= #[trigger] slot@[j] < b + 1) implies windows@[j] == sorted[j] by {
                assert forall|k: int| 0 <= k < cur.len() implies cur[k] != j by {
                    assert(bins@[b as int].windows@[k] == cur[k]);
                }
                assert(windows@[j] == pre[j]);
            }
            assert forall|b2: int, k: int|
                0 <= b2 < b + 1 && 0 <= k < bins@[b2].windows@.len() implies {
                    let j = #[trigger] bins@[b2].windows@[k] as int;
                    let st = shelf_state(sorted, bins@[b2].windows@, s as int, bw, carry_in(sorted, bins@, s as int, bw, b2 as nat), k as nat);
                    windows@[j] == sorted[j].moved(st.0, st.1, s as int)
                } by {
                if b2 < b {
                    let j = bins@[b2].windows@[k] as int;
                    assert forall|k3: int| 0 <= k3 < cur.len() implies cur[k3] != j by {
                        assert(bins@[b as int].windows@[k3] == cur[k3]);
                    }
                    assert(windows@[j] == pre[j]);
                }
            }
        }
        b = b + 1;
    }
    proof {
        let sv = s as int;
        assert(is_isqrt(bw * bh * bins@.len() * 1_000_000 / sum_area(before), sv));
        assert forall|i: int| 0 <= i < n && !fits_in(sorted[i], bw, bh) implies windows@[i] == sorted[i] by {
            assert(slot@[i] == -1);
        }
    }
    Ok(bins)
}

proof fn lemma_all_fit(ws: Seq<Window>, bw: int, bh: int, i: int)
    requires
        0 <= i <= ws.len(),
        forall|j: int| 0 <= j < ws.len() ==> #[trigger] fits_in(ws[j], bw, bh),
    ensures
        oversized_upto(ws, bw, bh, i) == 0,
        fitting_upto(ws, bw, bh, i) == Seq::new(i as nat, |k: int| k as usize),
    decreases i,
{
    if i > 0 {
        lemma_all_fit(ws, bw, bh, i - 1);
        assert(fits_in(ws[i - 1], bw, bh));
        assert(Seq::new((i - 1) as nat, |k: int| k as usize).push((i - 1) as usize) =~= Seq::new(
            i as nat,
            |k: int| k as usize,
        ));
    }
}

/// Window `i` is in one of the bins.
pub open spec fn in_some_bin(bins: Seq<Bin>, i: int) -> bool {
    exists|b: int, k: int| 0 <= b < bins.len() && 0 <= k < bins[b].windows@.len() && bins[b].windows@[k] == i
}

/// When every window is within the bins' capacity, the shelf packer uses a single
/// bin, which holds every window of its result once, in order.
pub proof fn law_shelf_places_all(before: Seq<Window>, after: Seq<Window>, bins: Seq<Bin>, bw: int, bh: int)
    requires
        shelf_packed(before, after, bins, bw, bh),
        forall|i: int| 0 <= i < before.len() ==> #[trigger] fits_in(before[i], bw, bh),
    ensures
        forall|b: int| 0 <= b < bins.len() ==> #[trigger] bins[b].width == bw && bins[b].height == bh,
        forall|i: int| 0 <= i < after.len() ==> #[trigger] in_some_bin(bins, i),
        before.len() >= 1 ==> bins.len() == 1 && bins[0].windows@ == Seq::new(
            before.len(),
            |k: int| k as usize,
        ),
        forall|b1: int, k1: int, b2: int, k2: int|
            0 <= b1 < bins.len() && 0 <= k1 < bins[b1].windows@.len() && 0 <= b2 < bins.len() && 0
                <= k2 < bins[b2].windows@.len() && #[trigger] bins[b1].windows@[k1]
                == #[trigger] bins[b2].windows@[k2] ==> b1 == b2 && k1 == k2,
{
    let (perm, s) = choose|perm: Seq<int>, s: int|
        #![trigger is_area_order(before, perm), is_isqrt(bw * bh * bins.len() * 1_000_000 / sum_area(before), s)]
        {
            let sorted = permuted(before, perm);
            &&& is_area_order(before, perm)
            &&& is_isqrt(bw * bh * bins.len() * 1_000_000 / sum_area(before), s)
            &&& after.len() == before.len()
            &&& bins_valid(sorted, bins, bw, bh)
            &&& greedy_bins(sorted, bins, bw, bh)
            &&& forall|i: int| 0 <= i < after.len() && !fits_in(sorted[i], bw, bh) ==> after[i] == sorted[i]
            &&& forall|b: int, k: int|
                0 <= b < bins.len() && 0 <= k < bins[b].windows@.len() ==> {
                    let i = #[trigger] bins[b].windows@[k] as int;
                    let st = shelf_state(sorted, bins[b].windows@, s, bw, carry_in(sorted, bins, s, bw, b as nat), k as nat);
                    after[i] == sorted[i].moved(st.0, st.1, s)
                }
        };
    let sorted = permuted(before, perm);
    law_area_order_sorted(before, perm);
    assert forall|j: int| 0 <= j < sorted.len() implies #[trigger] fits_in(sorted[j], bw, bh) by {
        assert(0 <= perm[j] < before.len());
        assert(fits_in(before[perm[j]], bw, bh));
    }
    lemma_all_fit(sorted, bw, bh, sorted.len() as int);
    assert forall|i: int| 0 <= i < after.len() implies #[trigger] in_some_bin(bins, i) by {
        assert(0 <= perm[i] < before.len());
        assert(fits_in(before[perm[i]], bw, bh));
        assert(fits_in(sorted[i], bw, bh));
    }
}

} // verus!
