//! Undo and redo: two stacks of snapshots of what can be edited, the frames,
//! the palette and the selection.

use crate::file::{frame_views, FileState, Frame};
use crate::palette::Palette;
use crate::selection::SelectionState;
use vstd::prelude::*;

verus! {

/// A snapshot of what can be edited.
pub struct HistoryItem {
    pub frames: Vec<Frame>,
    pub palette: Palette,
    pub selected_frames: Vec<usize>,
}

/// The snapshots that can be gone back to, oldest first, and those that were
/// gone back from, the one to go forward to last.
pub struct HistoryState {
    pub undo_stack: Vec<HistoryItem>,
    pub redo_stack: Vec<HistoryItem>,
}

/// Records the state before an edit: it becomes the state to go back to,
/// and there is nothing to go forward to any more.
pub fn add_state_to_history(history_state: &mut HistoryState, current: HistoryItem)
    ensures
        final(history_state).undo_stack@ == old(history_state).undo_stack@.push(current),
        final(history_state).redo_stack@.len() == 0,
{
    history_state.undo_stack.push(current);
    history_state.redo_stack.clear();
}

/// Goes one step back: hands out the last snapshot recorded and keeps
/// `current` to go forward to. Where nothing was recorded, `current` is
/// handed back and nothing changes.
pub fn undo(history_state: &mut HistoryState, current: HistoryItem) -> (restored: HistoryItem)
    ensures
        old(history_state).undo_stack@.len() == 0 ==> restored == current && final(history_state).undo_stack@ == old(history_state).undo_stack@ && final(history_state).redo_stack@ == old(history_state).redo_stack@,
        old(history_state).undo_stack@.len() > 0 ==> restored == old(history_state).undo_stack@.last() && final(history_state).undo_stack@ == old(history_state).undo_stack@.drop_last() && final(history_state).redo_stack@ == old(history_state).redo_stack@.push(current),
{
    match history_state.undo_stack.pop() {
        Some(new_history_item) => {
            history_state.redo_stack.push(current);
            new_history_item
        },
        None => current,
    }
}

/// Goes one step forward again: hands out the snapshot last gone back from
/// and keeps `current` to go back to. Where there is none, `current` is
/// handed back and nothing changes.
pub fn redo(history_state: &mut HistoryState, current: HistoryItem) -> (restored: HistoryItem)
    ensures
        old(history_state).redo_stack@.len() == 0 ==> restored == current && final(history_state).undo_stack@ == old(history_state).undo_stack@ && final(history_state).redo_stack@ == old(history_state).redo_stack@,
        old(history_state).redo_stack@.len() > 0 ==> restored == old(history_state).redo_stack@.last() && final(history_state).redo_stack@ == old(history_state).redo_stack@.drop_last() && final(history_state).undo_stack@ == old(history_state).undo_stack@.push(current),
{
    match history_state.redo_stack.pop() {
        Some(new_history_item) => {
            history_state.undo_stack.push(current);
            new_history_item
        },
        None => current,
    }
}

/// A snapshot of the document and the selection as they are.
pub fn get_current_state(file_state: &FileState, selection_state: &SelectionState) -> (item:
    HistoryItem)
    ensures
        frame_views(item.frames@) == frame_views(file_state.frames@),
        item.palette.colors == file_state.palette.colors,
        item.selected_frames@ == selection_state.selected_frames@,
{
    let mut frames: Vec<Frame> = Vec::new();
    let mut i: usize = 0;
    while i < file_state.frames.len()
        invariant
            0 <= i <= file_state.frames@.len(),
            frames@.len() == i,
            forall|j: int| 0 <= j < i ==> (#[trigger] frames@[j])@ == file_state.frames@[j]@,
        decreases file_state.frames@.len() - i,
    {
        frames.push(file_state.frames[i].clone());
        i += 1;
    }
    proof {
        assert(frame_views(frames@) =~= frame_views(file_state.frames@));
    }
    HistoryItem {
        frames,
        palette: file_state.palette.clone(),
        selected_frames: selection_state.selected_frames.clone(),
    }
}

/// Puts a snapshot back as the document and the selection.
pub fn set_current_state(
    file_state: &mut FileState,
    selection_state: &mut SelectionState,
    new_history_item: HistoryItem,
)
    ensures
        final(file_state).frames == new_history_item.frames,
        final(file_state).palette == new_history_item.palette,
        final(selection_state).selected_frames == new_history_item.selected_frames,
        final(file_state).file_title == old(file_state).file_title,
        final(file_state).file_path == old(file_state).file_path,
        final(file_state).file_is_open == old(file_state).file_is_open,
        final(file_state).file_is_modified == old(file_state).file_is_modified,
        final(file_state).pixel_format == old(file_state).pixel_format,
        final(file_state).cols == old(file_state).cols,
        final(file_state).rows == old(file_state).rows,
        final(file_state).read_only == old(file_state).read_only,
{
    file_state.frames = new_history_item.frames;
    selection_state.selected_frames = new_history_item.selected_frames;
    file_state.palette = new_history_item.palette;
}

} // verus!
