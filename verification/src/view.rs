//! The zoom of the frame view: a whole factor from one to four.

use vstd::prelude::*;

verus! {

/// The state of the view.
pub struct ViewState {
    pub zoom_scale: u32,
}

/// The zoom factor that is set when `requested` is asked for: the nearest
/// from one to four.
pub open spec fn clamped(requested: int) -> int {
    if requested < 1 {
        1
    } else if requested > 4 {
        4
    } else {
        requested
    }
}

/// Sets the zoom to the factor nearest to `new_zoom_scale` and returns the
/// factor that was set.
pub fn set_zoom_scale(view_state: &mut ViewState, new_zoom_scale: u32) -> (zoom_scale: u32)
    ensures
        zoom_scale == clamped(new_zoom_scale as int),
        final(view_state).zoom_scale == zoom_scale,
{
    let mut zoom_scale = new_zoom_scale;
    if zoom_scale < 1 {
        zoom_scale = 1;
    } else if zoom_scale > 4 {
        zoom_scale = 4;
    }
    view_state.zoom_scale = zoom_scale;
    zoom_scale
}

/// Sets the zoom back to one.
pub fn reset_zoom(view_state: &mut ViewState) -> (zoom_scale: u32)
    ensures
        zoom_scale == 1,
        final(view_state).zoom_scale == 1,
{
    set_zoom_scale(view_state, 1)
}

/// Zooms in by one step, up to four.
pub fn zoom_in(view_state: &mut ViewState) -> (zoom_scale: u32)
    ensures
        zoom_scale == clamped(old(view_state).zoom_scale + 1),
        final(view_state).zoom_scale == zoom_scale,
{
    let zoom_scale = view_state.zoom_scale;
    if zoom_scale >= 4 {
        set_zoom_scale(view_state, 4)
    } else {
        set_zoom_scale(view_state, zoom_scale + 1)
    }
}

/// Zooms out by one step, down to one.
pub fn zoom_out(view_state: &mut ViewState) -> (zoom_scale: u32)
    ensures
        zoom_scale == clamped(old(view_state).zoom_scale - 1),
        final(view_state).zoom_scale == zoom_scale,
{
    let zoom_scale = view_state.zoom_scale;
    if zoom_scale <= 1 {
        set_zoom_scale(view_state, 1)
    } else {
        set_zoom_scale(view_state, zoom_scale - 1)
    }
}

} // verus!
