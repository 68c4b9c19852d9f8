//! The frames that were copied, kept for pasting.

use crate::file::{frame_views, Frame};
use crate::selection::{delete_frames, paste_frames, pasted, pick_frames, picked};
use vstd::prelude::*;

verus! {

/// The frames that were copied last.
pub struct ClipboardState {
    pub copied_frames: Vec<Frame>,
}

/// Copies the selected frames, in their order.
pub fn copy(clipboard_state: &mut ClipboardState, frames: &Vec<Frame>, selected: &Vec<usize>)
    ensures
        frame_views(final(clipboard_state).copied_frames@) == picked(
            frame_views(frames@),
            selected@,
            true,
            frames@.len(),
        ),
{
    clipboard_state.copied_frames = pick_frames(frames, selected, true);
}

/// Copies the selected frames and hands out the frames that are left
/// without them.
pub fn cut(clipboard_state: &mut ClipboardState, frames: &Vec<Frame>, selected: &Vec<usize>) -> (left:
    Vec<Frame>)
    ensures
        frame_views(final(clipboard_state).copied_frames@) == picked(
            frame_views(frames@),
            selected@,
            true,
            frames@.len(),
        ),
        frame_views(left@) == picked(frame_views(frames@), selected@, false, frames@.len()),
{
    copy(clipboard_state, frames, selected);
    delete_frames(frames, selected)
}

/// Puts the frames that were copied in behind the last selected frame, or
/// at the end where nothing is selected, and selects them.
pub fn paste(clipboard_state: &ClipboardState, frames: &Vec<Frame>, selected: &Vec<usize>) -> (result:
    Option<(Vec<Frame>, Vec<usize>)>)
    ensures
        match result {
            Some((new_frames, new_selected)) => pasted(
                frame_views(frames@),
                selected@,
                frame_views(clipboard_state.copied_frames@),
            ) == Some((frame_views(new_frames@), new_selected@)),
            None => pasted(
                frame_views(frames@),
                selected@,
                frame_views(clipboard_state.copied_frames@),
            ) is None,
        },
{
    paste_frames(frames, selected, &clipboard_state.copied_frames)
}

} // verus!
