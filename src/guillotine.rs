use vstd::prelude::*;
use binpack2d::maxrects::MaxRectsBin;
use binpack2d::{BinPacker, Dimension};
use crate::geometry::{
    isqrt, is_isqrt, sum_area, total_area, LayoutError, Window, MAX_WINDOWS, SCALE_ONE,
};

verus! {

/// Margin the packer keeps around every item.
pub const PACK_PADDING: i32 = 20;

/// Most times the packer is tried again at a smaller scale.
pub const MAX_TRIES: u32 = 40;

/// The scale below which the retries never shrink.
pub const MIN_PACK_SCALE: i64 = 100;

/// Largest side of an item handed to the packer.
pub const MAX_ITEM_SIDE: i32 = 0x3fff_ffff;

/// Largest margin an item may ask the packer to keep.
pub const MAX_PADDING: i32 = 0x1000;

/// One rectangle to pack: a window's identifier, its scaled size and the margin the
/// packer keeps around it.
#[derive(Clone, Copy, Debug, PartialEq, Eq, Structural)]
pub struct PackItem {
    pub id: i64,
    pub width: i32,
    pub height: i32,
    pub padding: i32,
}

/// Where the packer put an item: its identifier, its top-left corner, its size and
/// its margin.
#[derive(Clone, Copy, Debug, PartialEq, Eq, Structural)]
pub struct PackedRect {
    pub id: i64,
    pub x: i32,
    pub y: i32,
    pub width: i32,
    pub height: i32,
    pub padding: i32,
}

/// The rectangle was made for the item: same identifier, size and margin.
pub open spec fn holds_item(p: PackedRect, it: PackItem) -> bool {
    p.id == it.id && p.width == it.width && p.height == it.height && p.padding == it.padding
}

/// An attempt that placed `ins` and rejected `rej` of `items` accounts for every
/// item: each one is placed or rejected, and each placed rectangle was made for an item.
pub open spec fn accounts_for(items: Seq<PackItem>, ins: Seq<PackedRect>, rej: Seq<PackItem>) -> bool {
    &&& ins.len() + rej.len() == items.len()
    &&& forall|i: int|
        0 <= i < ins.len() ==> exists|j: int| 0 <= j < items.len() && holds_item(#[trigger] ins[i], items[j])
    &&& forall|j: int|
        0 <= j < items.len() ==> (exists|i: int| 0 <= i < ins.len() && holds_item(ins[i], #[trigger] items[j]))
            || (exists|k: int| 0 <= k < rej.len() && rej[k] == items[j])
}

/// The first rectangle of `rects` with identifier `id`.
pub open spec fn first_with_id(rects: Seq<PackedRect>, id: i64) -> Option<PackedRect>
    decreases rects.len(),
{
    if rects.len() == 0 {
        None
    } else if rects[0].id == id {
        Some(rects[0])
    } else {
        first_with_id(rects.subrange(1, rects.len() as int), id)
    }
}

proof fn lemma_first_with_id_found(rects: Seq<PackedRect>, id: i64, k: int)
    requires
        0 <= k < rects.len(),
        rects[k].id == id,
    ensures
        first_with_id(rects, id) is Some,
    decreases rects.len(),
{
    if rects[0].id != id {
        let rest = rects.subrange(1, rects.len() as int);
        assert(rest[k - 1] == rects[k]);
        lemma_first_with_id_found(rest, id, k - 1);
    }
}

/// How a guillotine packing went: the retries made, the scale of the last attempt,
/// whether the last attempt placed every window, and whether the first one did.
#[derive(Clone, Copy, Debug, PartialEq, Eq, Structural)]
pub struct PackReport {
    pub tries: u32,
    pub scale: i64,
    pub all_placed: bool,
    pub first_attempt_ok: bool,
}

#[verifier::external_type_specification]
#[verifier::external_body]
pub struct ExMaxRectsBin(MaxRectsBin);

/// The rectangles a bin holds, in the order they were placed.
pub uninterp spec fn placed_rects(bin: MaxRectsBin) -> Seq<PackedRect>;

/// Relies on `MaxRectsBin::new`, which `bin_new(BinType::MaxRects, ..)` builds: a new
/// bin holds no rectangle.
#[verifier::external_body]
fn new_bin(width: i32, height: i32) -> (r: MaxRectsBin)
    ensures
        placed_rects(r) == Seq::<PackedRect>::empty(),
{
    MaxRectsBin::new(width, height)
}

/// Relies on `BinPacker::clear`: it removes every rectangle from the bin.
#[verifier::external_body]
fn clear_bin(bin: &mut MaxRectsBin)
    ensures
        placed_rects(*final(bin)) == Seq::<PackedRect>::empty(),
{
    BinPacker::clear(bin)
}

/// Relies on `BinPacker::insert_list`: every item is either placed, in a rectangle
/// keeping its identifier, size and margin, or handed back unchanged as rejected;
/// the placed ones are appended to the bin's rectangles in the order returned.
#[verifier::external_body]
fn insert_items(bin: &mut MaxRectsBin, items: &Vec<PackItem>) -> (r: (Vec<PackedRect>, Vec<PackItem>))
    requires
        forall|i: int|
            0 <= i < items.len() ==> 0 <= #[trigger] items@[i].width <= MAX_ITEM_SIDE && 0
                <= items@[i].height <= MAX_ITEM_SIDE && 0 <= items@[i].padding <= MAX_PADDING,
    ensures
        accounts_for(items@, r.0@, r.1@),
        placed_rects(*final(bin)) == placed_rects(*old(bin)) + r.0@,
{
    let dims: Vec<_> = items.iter().map(
        |it| Dimension::with_id(it.id as isize, it.width, it.height, it.padding),
    ).collect();
    let (inserted, rejected) = BinPacker::insert_list(bin, &dims);
    let rects = inserted.iter().map(|r| PackedRect {
        id: r.id() as i64, x: r.x(), y: r.y(), width: r.width(), height: r.height(), padding: r.dim().padding(),
    }).collect();
    (rects, rejected.iter().map(
        |d| PackItem { id: d.id() as i64, width: d.width(), height: d.height(), padding: d.padding() },
    ).collect())
}

/// Relies on `BinPacker::find_by_id`: the first rectangle of the bin with the
/// identifier, if there is one.
#[verifier::external_body]
fn find_rect(bin: &MaxRectsBin, id: i64) -> (r: Option<PackedRect>)
    ensures
        r == first_with_id(placed_rects(*bin), id),
{
    BinPacker::find_by_id(bin, id as isize).map(|r| PackedRect {
        id: r.id() as i64, x: r.x(), y: r.y(), width: r.width(), height: r.height(), padding: r.dim().padding(),
    })
}

/// The starting scale: the square root of the bin's area over the windows' area.
pub open spec fn is_pack_scale(bin_area: int, total: int, s: int) -> bool {
    is_isqrt(bin_area * SCALE_ONE * SCALE_ONE / total, s)
}

/// The scale that makes the windows' total area that of the bin, rounded down.
pub fn pack_scale(bin_area: u64, total: u64) -> (r: i64)
    requires
        bin_area <= 0xffff_ffff,
        total >= 1,
    ensures
        is_pack_scale(bin_area as int, total as int, r as int),
        0 <= r <= 0x400_0000,
{
    let x = (bin_area as u128) * 1_000_000 / (total as u128);
    proof {
        vstd::arithmetic::div_mod::lemma_div_is_ordered_by_denominator(
            bin_area as int * 1_000_000,
            1,
            total as int,
        );
    }
    let r = isqrt(x);
    proof {
        if r > 0x400_0000 {
            assert(r * r > 0x400_0000 * 0x400_0000) by (nonlinear_arith)
                requires
                    r > 0x400_0000,
            ;
        }
    }
    r as i64
}

/// A side at a scale, rounded to the nearest unit and capped at `MAX_ITEM_SIDE`.
pub open spec fn scaled_side(side: int, scale: int) -> int {
    let v = (side * scale + 500) / 1000;
    if v > MAX_ITEM_SIDE {
        MAX_ITEM_SIDE as int
    } else {
        v
    }
}

/// The item that stands for a window at a scale.
pub open spec fn pack_item(w: Window, scale: int) -> PackItem {
    PackItem {
        id: w.id as i64,
        width: scaled_side(w.ext_w(), scale) as i32,
        height: scaled_side(w.ext_h(), scale) as i32,
        padding: PACK_PADDING,
    }
}

fn scale_side(side: u16, scale: i64) -> (r: i32)
    requires
        0 <= scale <= 0x400_0000,
    ensures
        r == scaled_side(side as int, scale as int),
        0 <= r <= MAX_ITEM_SIDE,
{
    proof {
        assert(0 <= side * scale <= 0xffff * 0x400_0000) by (nonlinear_arith)
            requires
                0 <= scale <= 0x400_0000,
                side <= 0xffff,
        ;
    }
    let v: i64 = (side as i64 * scale + 500) / 1000;
    if v > MAX_ITEM_SIDE as i64 {
        MAX_ITEM_SIDE
    } else {
        v as i32
    }
}

/// The items that stand for the windows, in order, at a scale.
pub fn pack_items(windows: &Vec<Window>, scale: i64) -> (items: Vec<PackItem>)
    requires
        0 <= scale <= 0x400_0000,
    ensures
        items.len() == windows.len(),
        forall|i: int| 0 <= i < windows.len() ==> items@[i] == pack_item(windows@[i], scale as int),
        forall|i: int|
            0 <= i < items.len() ==> 0 <= #[trigger] items@[i].width <= MAX_ITEM_SIDE && 0
                <= items@[i].height <= MAX_ITEM_SIDE && 0 <= items@[i].padding <= MAX_PADDING,
{
    let mut items: Vec<PackItem> = Vec::new();
    let mut i: usize = 0;
    while i < windows.len()
        invariant
            i <= windows.len(),
            0 <= scale <= 0x400_0000,
            items.len() == i,
            forall|k: int| 0 <= k < i ==> items@[k] == pack_item(windows@[k], scale as int),
            forall|k: int|
                0 <= k < i ==> 0 <= #[trigger] items@[k].width <= MAX_ITEM_SIDE && 0
                    <= items@[k].height <= MAX_ITEM_SIDE && 0 <= items@[k].padding <= MAX_PADDING,
        decreases windows.len() - i,
    {
        let w = windows[i];
        let width = scale_side(w.layout_width(), scale);
        let height = scale_side(w.layout_height(), scale);
        items.push(PackItem { id: w.id as i64, width, height, padding: PACK_PADDING });
        i = i + 1;
    }
    items
}

/// The scale of the next attempt: 99% of this one, but not below `MIN_PACK_SCALE`.
pub open spec fn next_scale_of(scale: int) -> int {
    let s = scale * 99 / 100;
    if s < MIN_PACK_SCALE {
        MIN_PACK_SCALE as int
    } else {
        s
    }
}

/// The scale after `k` retries from `scale`.
pub open spec fn shrunk(scale: int, k: nat) -> int
    decreases k,
{
    if k == 0 {
        scale
    } else {
        next_scale_of(shrunk(scale, (k - 1) as nat))
    }
}

/// The scale of the next attempt.
pub fn next_scale(scale: i64) -> (r: i64)
    requires
        0 <= scale <= 0x400_0000,
    ensures
        r == next_scale_of(scale as int),
        MIN_PACK_SCALE <= r <= 0x400_0000,
{
    let s = scale * 99 / 100;
    if s < MIN_PACK_SCALE {
        MIN_PACK_SCALE
    } else {
        s
    }
}

/// An attempt that placed `inserted` and rejected `rejected` of `total` items is
/// retried, unless `MAX_TRIES` retries have been made.
pub open spec fn retry_due(inserted: int, rejected: int, total: int, tries: int) -> bool {
    (rejected != 0 || inserted != total) && tries < MAX_TRIES
}

/// Whether to try packing again.
pub fn must_retry(inserted: usize, rejected: usize, total: usize, tries: u32) -> (r: bool)
    ensures
        r == retry_due(inserted as int, rejected as int, total as int, tries as int),
{
    (rejected != 0 || inserted != total) && tries < MAX_TRIES
}

/// The scale that fits a window into a packed rectangle, at most 1.
pub open spec fn packed_scale(w: Window, p: PackedRect) -> int {
    if w.definite() {
        let pw = if p.width < 0 { 0 } else { p.width as int };
        let ph = if p.height < 0 { 0 } else { p.height as int };
        let sx = pw * SCALE_ONE / (w.width as int);
        let sy = ph * SCALE_ONE / (w.height as int);
        let s = if sx <= sy { sx } else { sy };
        if s <= SCALE_ONE { s } else { SCALE_ONE as int }
    } else {
        SCALE_ONE as int
    }
}

/// A window moved to a packed rectangle's corner and scaled to fit it.
pub open spec fn packed_window(w: Window, p: PackedRect) -> Window {
    w.moved(p.x as int, p.y as int, packed_scale(w, p))
}

/// A window moved into the packed rectangle the packer gave it; a window the packer
/// could not place is left as it is.
pub fn apply_packed(w: &Window, rect: Option<PackedRect>) -> (r: Window)
    ensures
        r == match rect {
            Some(p) => packed_window(*w, p),
            None => *w,
        },
{
    match rect {
        Some(p) => {
            let scale: i64 = if w.is_definite() {
                let pw: i64 = if p.width < 0 { 0 } else { p.width as i64 };
                let ph: i64 = if p.height < 0 { 0 } else { p.height as i64 };
                let sx = pw * 1000 / (w.width as i64);
                let sy = ph * 1000 / (w.height as i64);
                proof {
                    vstd::arithmetic::div_mod::lemma_div_is_ordered_by_denominator(
                        pw * 1000,
                        1,
                        w.width as int,
                    );
                    vstd::arithmetic::div_mod::lemma_div_is_ordered_by_denominator(
                        ph * 1000,
                        1,
                        w.height as int,
                    );
                }
                let s = if sx <= sy { sx } else { sy };
                if s <= SCALE_ONE { s } else { SCALE_ONE }
            } else {
                SCALE_ONE
            };
            Window { x: p.x as i64, y: p.y as i64, scale, ..*w }
        },
        None => *w,
    }
}

/// What the last attempt at `scale` placed, for windows `ws`.
pub open spec fn last_attempt(ws: Seq<Window>, scale: int, ins: Seq<PackedRect>, rej: Seq<PackItem>) -> bool {
    accounts_for(Seq::new(ws.len(), |j: int| pack_item(ws[j], scale)), ins, rej)
}

/// The attempts of a packing, in order: attempt `k` packs the windows' items at the
/// scale shrunk `k` times from `s0`; every attempt but the last left an item out
/// (and came before the last retry allowed), and the last one ends the retries.
pub open spec fn retry_history(ws: Seq<Window>, s0: int, hist: Seq<(Seq<PackedRect>, Seq<PackItem>)>) -> bool {
    &&& hist.len() >= 1
    &&& forall|k: int|
        0 <= k < hist.len() ==> last_attempt(ws, shrunk(s0, k as nat), (#[trigger] hist[k]).0, hist[k].1)
    &&& forall|k: int|
        0 <= k < hist.len() - 1 ==> retry_due(
            (#[trigger] hist[k]).0.len() as int,
            hist[k].1.len() as int,
            ws.len() as int,
            k,
        )
    &&& !retry_due(
        hist.last().0.len() as int,
        hist.last().1.len() as int,
        ws.len() as int,
        hist.len() - 1,
    )
}

/// The retry loop: packs the windows' items at `s0`, then at ever smaller scales
/// while the packer rejects some and fewer than `MAX_TRIES` retries were made.
fn pack_with_retries(windows: &Vec<Window>, bin: &mut MaxRectsBin, s0: i64) -> (r: (
    Vec<PackedRect>,
    Vec<PackItem>,
    i64,
    u32,
    bool,
    Ghost<Seq<(Seq<PackedRect>, Seq<PackItem>)>>,
))
    requires
        0 <= s0 <= 0x400_0000,
    ensures
        ({
            let (ins, rej, scale, tries, first_ok, hist) = r;
            &&& retry_history(windows@, s0 as int, hist@)
            &&& hist@.len() == tries + 1
            &&& hist@.last() == (ins@, rej@)
            &&& first_ok == (hist@[0].1.len() == 0 && hist@[0].0.len() == windows.len())
            &&& tries <= MAX_TRIES
            &&& scale == shrunk(s0 as int, tries as nat)
            &&& first_ok ==> tries == 0
            &&& tries == 0 ==> first_ok == !retry_due(ins.len() as int, rej.len() as int, windows.len() as int, 0)
            &&& !retry_due(ins.len() as int, rej.len() as int, windows.len() as int, tries as int)
            &&& last_attempt(windows@, scale as int, ins@, rej@)
            &&& placed_rects(*final(bin)) == ins@
        }),
{
    let n = windows.len();
    let mut scale = s0;
    let mut items = pack_items(windows, scale);
    clear_bin(bin);
    let (ins0, rej0) = insert_items(bin, &items);
    let mut ins = ins0;
    let mut rej = rej0;
    proof {
        assert(placed_rects(*bin) =~= ins@);
        assert(items@ =~= Seq::new(n as nat, |j: int| pack_item(windows@[j], scale as int)));
    }
    let first_ok = !must_retry(ins.len(), rej.len(), n, 0);
    let ghost mut hist: Seq<(Seq<PackedRect>, Seq<PackItem>)> = seq![(ins@, rej@)];
    let mut tries: u32 = 0;
    while must_retry(ins.len(), rej.len(), n, tries)
        invariant
            n == windows.len(),
            hist.len() == tries + 1,
            hist.last() == (ins@, rej@),
            first_ok == (hist[0].1.len() == 0 && hist[0].0.len() == n),
            forall|k: int|
                0 <= k < hist.len() ==> last_attempt(windows@, shrunk(s0 as int, k as nat), (#[trigger] hist[k]).0, hist[k].1),
            forall|k: int|
                0 <= k < hist.len() - 1 ==> retry_due(
                    (#[trigger] hist[k]).0.len() as int,
                    hist[k].1.len() as int,
                    n as int,
                    k,
                ),
            tries <= MAX_TRIES,
            0 <= scale <= 0x400_0000,
            scale == shrunk(s0 as int, tries as nat),
            first_ok ==> tries == 0,
            tries == 0 ==> first_ok == !retry_due(ins.len() as int, rej.len() as int, n as int, 0),
            last_attempt(windows@, scale as int, ins@, rej@),
            placed_rects(*bin) == ins@,
        decreases MAX_TRIES - tries,
    {
        scale = next_scale(scale);
        items = pack_items(windows, scale);
        clear_bin(bin);
        let (a, b) = insert_items(bin, &items);
        ins = a;
        rej = b;
        proof {
            assert(placed_rects(*bin) =~= ins@);
            assert(items@ =~= Seq::new(n as nat, |j: int| pack_item(windows@[j], scale as int)));
            hist = hist.push((ins@, rej@));
        }
        tries = tries + 1;
    }
    (ins, rej, scale, tries, first_ok, Ghost(hist))
}

/// Moves each window into the first rectangle of the bin with its identifier.
fn move_to_placed(windows: &mut Vec<Window>, bin: &MaxRectsBin)
    ensures
        final(windows).len() == old(windows).len(),
        forall|i: int|
            0 <= i < old(windows).len() ==> #[trigger] final(windows)@[i] == placed_window(
                old(windows)@[i],
                placed_rects(*bin),
            ),
{
    let ghost before = windows@;
    let n = windows.len();
    let mut i: usize = 0;
    while i < n
        invariant
            n == windows.len(),
            n == before.len(),
            i <= n,
            forall|k: int| i <= k < n ==> windows@[k] == before[k],
            forall|k: int|
                0 <= k < i ==> #[trigger] windows@[k] == placed_window(before[k], placed_rects(*bin)),
        decreases n - i,
    {
        let w = windows[i];
        let rect = find_rect(bin, w.id as i64);
        let t = apply_packed(&w, rect);
        windows.set(i, t);
        i = i + 1;
    }
}

proof fn lemma_last_attempt(ws: Seq<Window>, scale: int, ins: Seq<PackedRect>, rej: Seq<PackItem>)
    requires
        last_attempt(ws, scale, ins, rej),
    ensures
        forall|k: int|
            0 <= k < ins.len() ==> exists|j: int|
                0 <= j < ws.len() && holds_item(#[trigger] ins[k], pack_item(ws[j], scale)),
        rej.len() == 0 ==> forall|i: int|
            0 <= i < ws.len() ==> (#[trigger] first_with_id(ins, ws[i].id as i64)) is Some,
        (rej.len() == 0 && ins.len() == ws.len()) <==> ins.len() == ws.len(),
{
    let items = Seq::new(ws.len(), |j: int| pack_item(ws[j], scale));
    assert forall|k: int| 0 <= k < ins.len() implies exists|j: int|
        0 <= j < ws.len() && holds_item(#[trigger] ins[k], pack_item(ws[j], scale)) by {
        let j = choose|j: int| 0 <= j < items.len() && holds_item(ins[k], items[j]);
        assert(items[j] == pack_item(ws[j], scale));
    }
    if rej.len() == 0 {
        assert forall|i: int| 0 <= i < ws.len() implies (#[trigger] first_with_id(ins, ws[i].id as i64)) is Some by {
            assert(exists|k: int| 0 <= k < ins.len() && holds_item(ins[k], items[i]));
            let k = choose|k: int| 0 <= k < ins.len() && holds_item(ins[k], items[i]);
            lemma_first_with_id_found(ins, ws[i].id as i64, k);
        }
    }
}

/// Where the last attempt leaves a window: moved into the first rectangle with its
/// identifier, or as it was when there is none.
pub open spec fn placed_window(w: Window, placed: Seq<PackedRect>) -> Window {
    match first_with_id(placed, w.id as i64) {
        Some(p) => packed_window(w, p),
        None => w,
    }
}

/// Packs all windows into one `bin_width` by `bin_height` bin: starting from the
/// scale that makes their area that of the bin, the scale shrinks by 1% (not below
/// `MIN_PACK_SCALE`) until the packer places every window's item (its size at that
/// scale, with a margin of `PACK_PADDING`), at most `MAX_TRIES` times. Each window
/// whose identifier the last attempt placed moves to that rectangle's corner, scaled
/// to fit it but never above 1; the others stay as they were.
pub fn bin_pack2(windows: &mut Vec<Window>, bin_width: u16, bin_height: u16) -> (r: Result<
    PackReport,
    LayoutError,
>)
    requires
        old(windows).len() <= MAX_WINDOWS,
    ensures
        final(windows).len() == old(windows).len(),
        (bin_width == 0 || bin_height == 0) <==> r == Err::<PackReport, LayoutError>(
            LayoutError::EmptySpace,
        ),
        (bin_width > 0 && bin_height > 0 && old(windows).len() > 0 && sum_area(old(windows)@)
            == 0) <==> r == Err::<PackReport, LayoutError>(LayoutError::ZeroWindowArea),
        r.is_err() ==> final(windows)@ == old(windows)@,
        r.is_ok() && old(windows).len() == 0 ==> r == Ok::<PackReport, LayoutError>(
            PackReport { tries: 0, scale: 0, all_placed: true, first_attempt_ok: true },
        ),
        match r {
            Ok(rep) => old(windows).len() > 0 ==> exists|
                s0: int,
                hist: Seq<(Seq<PackedRect>, Seq<PackItem>)>,
            |
                #![trigger is_pack_scale(bin_width as int * bin_height as int, sum_area(old(windows)@), s0), retry_history(old(windows)@, s0, hist)]
                {
                    let placed = hist.last().0;
                    &&& is_pack_scale(
                        bin_width as int * bin_height as int,
                        sum_area(old(windows)@),
                        s0,
                    )
                    &&& retry_history(old(windows)@, s0, hist)
                    &&& hist.len() == rep.tries + 1
                    &&& rep.tries <= MAX_TRIES
                    &&& rep.scale == shrunk(s0, rep.tries as nat)
                    &&& rep.first_attempt_ok == (hist[0].1.len() == 0 && hist[0].0.len()
                        == old(windows).len())
                    &&& rep.first_attempt_ok ==> rep.tries == 0 && rep.scale == s0
                    &&& rep.all_placed <==> placed.len() == old(windows).len()
                    &&& !rep.all_placed ==> rep.tries == MAX_TRIES
                    &&& forall|k: int|
                        0 <= k < placed.len() ==> exists|j: int|
                            0 <= j < old(windows).len() && holds_item(
                                #[trigger] placed[k],
                                pack_item(old(windows)@[j], rep.scale as int),
                            )
                    &&& rep.all_placed ==> forall|i: int|
                        0 <= i < old(windows).len() ==> (#[trigger] first_with_id(
                            placed,
                            old(windows)@[i].id as i64,
                        )) is Some
                    &&& forall|i: int|
                        0 <= i < old(windows).len() ==> #[trigger] final(windows)@[i]
                            == placed_window(old(windows)@[i], placed)
                },
            Err(_) => true,
        },
{
    let n = windows.len();
    if bin_width == 0 || bin_height == 0 {
        return Err(LayoutError::EmptySpace);
    }
    if n == 0 {
        return Ok(PackReport { tries: 0, scale: 0, all_placed: true, first_attempt_ok: true });
    }
    let total = total_area(windows);
    if total == 0 {
        return Err(LayoutError::ZeroWindowArea);
    }
    proof {
        assert(bin_width as u64 * bin_height as u64 <= 0xffff_ffff) by (nonlinear_arith)
            requires
                bin_width <= 0xffff,
                bin_height <= 0xffff,
        ;
    }
    let bin_area = bin_width as u64 * bin_height as u64;
    let s0 = pack_scale(bin_area, total);
    let mut bin = new_bin(bin_width as i32, bin_height as i32);
    let (ins, rej, scale, tries, first_ok, hist) = pack_with_retries(windows, &mut bin, s0);
    let all_placed = rej.len() == 0 && ins.len() == n;
    let ghost before = windows@;
    proof {
        lemma_last_attempt(before, scale as int, ins@, rej@);
    }
    move_to_placed(windows, &bin);
    proof {
        let placed = ins@;
        assert(all_placed <==> placed.len() == n);
        assert(hist@.last().0 == placed);
        assert(retry_history(before, s0 as int, hist@));
    }
    Ok(PackReport { tries, scale, all_placed, first_attempt_ok: first_ok })
}

} // verus!
