use vstd::prelude::*;
use crate::geometry::{Window, MAX_WINDOWS, SCALE_ONE};

verus! {

/// Offset between consecutive windows of the cascade.
pub const CASCADE_STEP: i64 = 50;

/// Resets every window to the unit scale and lays them out in a diagonal cascade:
/// the window at index `i` moves to `(50 * i, 50 * i)`. The space's size is not used.
pub fn normalize(windows: &mut Vec<Window>, space_width: u16, space_height: u16)
    requires
        old(windows).len() <= MAX_WINDOWS,
    ensures
        final(windows).len() == old(windows).len(),
        forall|i: int|
            0 <= i < old(windows).len() ==> #[trigger] final(windows)@[i] == old(
                windows,
            )@[i].moved(CASCADE_STEP * i, CASCADE_STEP * i, SCALE_ONE as int),
{
    let ghost before = windows@;
    let n = windows.len();
    let mut i: usize = 0;
    while i < n
        invariant
            n == windows.len(),
            n == before.len(),
            n <= MAX_WINDOWS,
            i <= n,
            forall|k: int| i <= k < n ==> windows@[k] == before[k],
            forall|k: int|
                0 <= k < i ==> #[trigger] windows@[k] == before[k].moved(
                    CASCADE_STEP * k,
                    CASCADE_STEP * k,
                    SCALE_ONE as int,
                ),
        decreases n - i,
    {
        let offset = CASCADE_STEP * i as i64;
        let w = Window { x: offset, y: offset, scale: SCALE_ONE, ..windows[i] };
        windows.set(i, w);
        i = i + 1;
    }
}

} // verus!
