//! Input helpers shared by the screens.

use vstd::prelude::*;

verus! {

/// How close together, in milliseconds, two clicks on the same row must
/// be to count as a double click.
pub const DOUBLE_CLICK_MS: u64 = 400;

/// Decides whether a click at `now_ms` on row `idx` completes a double
/// click, given the remembered previous click: it does exactly when the
/// previous click was on the same row and no longer ago than the
/// threshold. A completed double click clears the memory; otherwise the
/// click is remembered.
pub fn is_double_click(last: &mut Option<(u64, usize)>, now_ms: u64, idx: usize) -> (r: bool)
    ensures
        r == match *old(last) {
            Some((t, prev)) => prev == idx && t <= now_ms && now_ms - t <= DOUBLE_CLICK_MS,
            None => false,
        },
        r ==> *final(last) is None,
        !r ==> *final(last) == Some((now_ms, idx)),
{
    match *last {
        Some((t, prev)) => {
            if prev == idx && t <= now_ms && now_ms - t <= DOUBLE_CLICK_MS {
                *last = None;
                return true;
            }
        },
        None => {
        },
    }
    *last = Some((now_ms, idx));
    false
}

} // verus!
