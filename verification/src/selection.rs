//! Editing the list of frames by a selection of frame numbers: moving and
//! deleting the selected frames, and inserting new ones behind them.

use crate::file::{frame_views, Frame, FrameView};
use vstd::prelude::*;

verus! {

/// The frames that are selected, by their numbers.
pub struct SelectionState {
    pub selected_frames: Vec<usize>,
}

/// Replaces the selection.
pub fn update_selection(selection_state: &mut SelectionState, new_selected_frames: Vec<usize>)
    ensures
        final(selection_state).selected_frames@ == new_selected_frames@,
{
    selection_state.selected_frames = new_selected_frames;
}

/// Selects all `frame_count` frames.
pub fn select_all(selection_state: &mut SelectionState, frame_count: usize)
    ensures
        final(selection_state).selected_frames@ == run_of(0, frame_count as nat),
{
    selection_state.selected_frames = select_run(0, frame_count);
}

/// Selects nothing.
pub fn deselect_all(selection_state: &mut SelectionState)
    ensures
        final(selection_state).selected_frames@.len() == 0,
{
    selection_state.selected_frames = Vec::new();
}

/// Whether a frame number is among those selected.
pub open spec fn is_selected(selected: Seq<usize>, index: int) -> bool {
    exists|i: int| 0 <= i < selected.len() && selected[i] == index
}

/// Those of the first `count` frames that are selected, or those that are
/// not, in their order.
pub open spec fn picked(
    frames: Seq<FrameView>,
    selected: Seq<usize>,
    wanted: bool,
    count: nat,
) -> Seq<FrameView>
    decreases count,
{
    if count == 0 {
        Seq::empty()
    } else {
        let before = picked(frames, selected, wanted, (count - 1) as nat);
        if is_selected(selected, count - 1) == wanted {
            before.push(frames[count - 1])
        } else {
            before
        }
    }
}

/// The number of entries among the first `count` of a selection that lie
/// before `point`.
pub open spec fn entries_before(selected: Seq<usize>, point: int, count: nat) -> nat
    decreases count,
{
    if count == 0 {
        0
    } else {
        let before = entries_before(selected, point, (count - 1) as nat);
        if selected[count - 1] < point {
            before + 1
        } else {
            before
        }
    }
}

/// The frame numbers from `start` on, `count` of them.
pub open spec fn run_of(start: int, count: nat) -> Seq<usize> {
    Seq::new(count, |i: int| (start + i) as usize)
}

/// The largest of the first `count` entries of a selection, if there is one.
pub open spec fn largest(selected: Seq<usize>, count: nat) -> Option<usize>
    decreases count,
{
    if count == 0 {
        None
    } else {
        match largest(selected, (count - 1) as nat) {
            Some(before) => if selected[count - 1] > before {
                Some(selected[count - 1])
            } else {
                Some(before)
            },
            None => Some(selected[count - 1]),
        }
    }
}

/// Where new frames are inserted: behind the last selected frame, or at the
/// end where nothing is selected.
pub open spec fn insert_point_of(selected: Seq<usize>, frame_count: nat) -> int {
    match largest(selected, selected.len()) {
        Some(last) => last + 1,
        None => frame_count as int,
    }
}

/// A list of frames with others put in at `point`.
pub open spec fn with_inserted(frames: Seq<FrameView>, point: int, added: Seq<FrameView>) -> Seq<
    FrameView,
> {
    frames.take(point) + added + frames.skip(point)
}

/// Whether a frame number is selected.
pub fn selection_contains(selected: &Vec<usize>, index: usize) -> (found: bool)
    ensures
        found == is_selected(selected@, index as int),
{
    let mut i: usize = 0;
    while i < selected.len()
        invariant
            0 <= i <= selected@.len(),
            forall|j: int| 0 <= j < i ==> selected@[j] != index,
        decreases selected@.len() - i,
    {
        if selected[i] == index {
            return true;
        }
        i += 1;
    }
    false
}

/// The selected frames, or the others, in their order.
pub fn pick_frames(frames: &Vec<Frame>, selected: &Vec<usize>, wanted: bool) -> (chosen: Vec<Frame>)
    ensures
        frame_views(chosen@) == picked(frame_views(frames@), selected@, wanted, frames@.len()),
{
    let ghost views = frame_views(frames@);
    let mut chosen: Vec<Frame> = Vec::new();
    let mut i: usize = 0;
    assert(frame_views(chosen@) =~= Seq::<FrameView>::empty());
    while i < frames.len()
        invariant
            0 <= i <= frames@.len(),
            views == frame_views(frames@),
            frame_views(chosen@) == picked(views, selected@, wanted, i as nat),
        decreases frames@.len() - i,
    {
        if selection_contains(selected, i) == wanted {
            let ghost before = frame_views(chosen@);
            let frame = frames[i].clone();
            chosen.push(frame);
            proof {
                assert(frame@ == views[i as int]);
                assert(frame_views(chosen@) =~= before.push(frame@));
            }
        }
        i += 1;
    }
    chosen
}

/// The frames that are left when the selected ones are deleted.
pub fn delete_frames(frames: &Vec<Frame>, selected: &Vec<usize>) -> (left: Vec<Frame>)
    ensures
        frame_views(left@) == picked(frame_views(frames@), selected@, false, frames@.len()),
{
    pick_frames(frames, selected, false)
}

/// Puts `added` into `frames` at `point`.
pub fn insert_frames(frames: &Vec<Frame>, point: usize, added: &Vec<Frame>) -> (joined: Vec<Frame>)
    requires
        point <= frames@.len(),
    ensures
        frame_views(joined@) == with_inserted(
            frame_views(frames@),
            point as int,
            frame_views(added@),
        ),
{
    let ghost old_views = frame_views(frames@);
    let ghost new_views = frame_views(added@);
    let mut joined: Vec<Frame> = Vec::new();
    let mut i: usize = 0;
    assert(frame_views(joined@) =~= old_views.take(0));
    while i < point
        invariant
            0 <= i <= point <= frames@.len(),
            old_views == frame_views(frames@),
            frame_views(joined@) == old_views.take(i as int),
        decreases point - i,
    {
        let ghost before = frame_views(joined@);
        let frame = frames[i].clone();
        joined.push(frame);
        proof {
            assert(frame_views(joined@) =~= before.push(frame@));
            assert(before.push(old_views[i as int]) =~= old_views.take(i + 1));
        }
        i += 1;
    }
    let mut j: usize = 0;
    assert(frame_views(joined@) =~= old_views.take(point as int) + new_views.take(0));
    while j < added.len()
        invariant
            0 <= j <= added@.len(),
            point <= frames@.len(),
            old_views == frame_views(frames@),
            new_views == frame_views(added@),
            frame_views(joined@) == old_views.take(point as int) + new_views.take(j as int),
        decreases added@.len() - j,
    {
        let ghost before = frame_views(joined@);
        let frame = added[j].clone();
        joined.push(frame);
        proof {
            assert(frame_views(joined@) =~= before.push(frame@));
            assert(before.push(new_views[j as int]) =~= old_views.take(point as int)
                + new_views.take(j + 1));
        }
        j += 1;
    }
    let mut i: usize = point;
    proof {
        assert(new_views.take(new_views.len() as int) =~= new_views);
        assert(frame_views(joined@) =~= old_views.take(point as int) + new_views
            + old_views.subrange(point as int, point as int));
    }
    while i < frames.len()
        invariant
            point <= i <= frames@.len(),
            old_views == frame_views(frames@),
            new_views == frame_views(added@),
            frame_views(joined@) == old_views.take(point as int) + new_views + old_views.subrange(
                point as int,
                i as int,
            ),
        decreases frames@.len() - i,
    {
        let ghost before = frame_views(joined@);
        let frame = frames[i].clone();
        joined.push(frame);
        proof {
            assert(frame_views(joined@) =~= before.push(frame@));
            assert(before.push(old_views[i as int]) =~= old_views.take(point as int) + new_views
                + old_views.subrange(point as int, i + 1));
        }
        i += 1;
    }
    proof {
        assert(old_views.subrange(point as int, old_views.len() as int) =~= old_views.skip(
            point as int,
        ));
    }
    joined
}

/// The frame numbers from `start` on, `count` of them.
pub fn select_run(start: usize, count: usize) -> (selected: Vec<usize>)
    requires
        start + count <= usize::MAX,
    ensures
        selected@ == run_of(start as int, count as nat),
{
    let mut selected: Vec<usize> = Vec::new();
    let mut i: usize = 0;
    while i < count
        invariant
            0 <= i <= count,
            start + count <= usize::MAX,
            selected@ == run_of(start as int, i as nat),
        decreases count - i,
    {
        selected.push(start + i);
        proof {
            assert(selected@ =~= run_of(start as int, (i + 1) as nat));
        }
        i += 1;
    }
    selected
}

/// Where new frames go: behind the last selected frame, or at the end where
/// nothing is selected.
pub fn insert_point(selected: &Vec<usize>, frame_count: usize) -> (point: Option<usize>)
    ensures
        insert_point_of(selected@, frame_count as nat) <= usize::MAX ==> point == Some(
            insert_point_of(selected@, frame_count as nat) as usize,
        ),
        insert_point_of(selected@, frame_count as nat) > usize::MAX ==> point is None,
{
    let mut last: Option<usize> = None;
    let mut i: usize = 0;
    while i < selected.len()
        invariant
            0 <= i <= selected@.len(),
            last == largest(selected@, i as nat),
        decreases selected@.len() - i,
    {
        last = match last {
            Some(before) => if selected[i] > before {
                Some(selected[i])
            } else {
                Some(before)
            },
            None => Some(selected[i]),
        };
        i += 1;
    }
    match last {
        Some(index) => if index < usize::MAX {
            Some(index + 1)
        } else {
            None
        },
        None => Some(frame_count),
    }
}

/// The frames and the selection after the selected frames were moved in
/// front of the frame that was at `insert_point`.
pub open spec fn moved(frames: Seq<FrameView>, selected: Seq<usize>, insert_point: int) -> Option<
    (Seq<FrameView>, Seq<usize>),
> {
    let taken = picked(frames, selected, true, frames.len());
    let left = picked(frames, selected, false, frames.len());
    let point = insert_point - entries_before(selected, insert_point, selected.len());
    if 0 <= point <= left.len() {
        Some((with_inserted(left, point, taken), run_of(point, taken.len())))
    } else {
        None
    }
}

/// Every frame is either among the selected or among the others.
pub proof fn lemma_picked_len(frames: Seq<FrameView>, selected: Seq<usize>, count: nat)
    ensures
        picked(frames, selected, true, count).len() + picked(frames, selected, false, count).len()
            == count,
    decreases count,
{
    if count > 0 {
        lemma_picked_len(frames, selected, (count - 1) as nat);
    }
}

/// Moves the selected frames, in their order, in front of the frame that
/// stands at `insert_point`, and selects them at their new place. Each entry
/// of the selection before `insert_point` moves the target one frame down;
/// where the target then lies outside the frames that stay, nothing is
/// moved and `None` is returned.
pub fn move_frames(frames: &Vec<Frame>, selected: &Vec<usize>, insert_point: usize) -> (result: Option<
    (Vec<Frame>, Vec<usize>),
>)
    ensures
        match result {
            Some((new_frames, new_selected)) => moved(
                frame_views(frames@),
                selected@,
                insert_point as int,
            ) == Some((frame_views(new_frames@), new_selected@)),
            None => moved(frame_views(frames@), selected@, insert_point as int) is None,
        },
{
    let moved_frames = pick_frames(frames, selected, true);
    let remaining_frames = pick_frames(frames, selected, false);
    let mut before: usize = 0;
    let mut i: usize = 0;
    while i < selected.len()
        invariant
            0 <= i <= selected@.len(),
            before == entries_before(selected@, insert_point as int, i as nat),
            before <= i,
        decreases selected@.len() - i,
    {
        if selected[i] < insert_point {
            before += 1;
        }
        i += 1;
    }
    if before > insert_point {
        return None;
    }
    let final_insert_point = insert_point - before;
    let total = frames.len();
    let taken = moved_frames.len();
    if final_insert_point <= remaining_frames.len() {
        proof {
            lemma_picked_len(frame_views(frames@), selected@, frames@.len());
            assert(frame_views(moved_frames@).len() == moved_frames@.len());
            assert(frame_views(remaining_frames@).len() == remaining_frames@.len());
        }
        let new_frames = insert_frames(&remaining_frames, final_insert_point, &moved_frames);
        let new_selected = select_run(final_insert_point, moved_frames.len());
        Some((new_frames, new_selected))
    } else {
        None
    }
}

/// The frames and the selection after new frames were put in behind the
/// last selected frame: the new frames are selected. Where the last selected
/// frame does not exist, nothing is put in.
pub open spec fn pasted(frames: Seq<FrameView>, selected: Seq<usize>, added: Seq<FrameView>) -> Option<
    (Seq<FrameView>, Seq<usize>),
> {
    let point = insert_point_of(selected, frames.len());
    if point <= frames.len() {
        Some((with_inserted(frames, point, added), run_of(point, added.len())))
    } else {
        None
    }
}

/// Puts new frames in behind the last selected frame, or at the end where
/// nothing is selected, and selects them.
pub fn paste_frames(frames: &Vec<Frame>, selected: &Vec<usize>, added: &Vec<Frame>) -> (result: Option<
    (Vec<Frame>, Vec<usize>),
>)
    ensures
        match result {
            Some((new_frames, new_selected)) => pasted(
                frame_views(frames@),
                selected@,
                frame_views(added@),
            ) == Some((frame_views(new_frames@), new_selected@)),
            None => pasted(frame_views(frames@), selected@, frame_views(added@)) is None,
        },
{
    let frame_count = frames.len();
    let added_count = added.len();
    match insert_point(selected, frame_count) {
        Some(point) => {
            if point <= frame_count {
                let new_frames = insert_frames(frames, point, added);
                let total = new_frames.len();
                proof {
                    assert(frame_views(new_frames@).len() == total);
                    assert(frame_views(frames@).len() == frame_count);
                    assert(frame_views(added@).len() == added_count);
                    assert(frame_views(frames@).take(point as int).len() == point);
                }
                let new_selected = select_run(point, added_count);
                Some((new_frames, new_selected))
            } else {
                None
            }
        },
        None => None,
    }
}

/// The smallest of the first `count` entries of a selection, if there is one.
pub open spec fn smallest(selected: Seq<usize>, count: nat) -> Option<usize>
    decreases count,
{
    if count == 0 {
        None
    } else {
        match smallest(selected, (count - 1) as nat) {
            Some(before) => if selected[count - 1] < before {
                Some(selected[count - 1])
            } else {
                Some(before)
            },
            None => Some(selected[count - 1]),
        }
    }
}

/// The frames and the selection after new frames were put in the place of
/// the selected ones: the selected frames are taken out, the new frames go
/// where the first of them stood, or at the end where nothing was selected,
/// and are selected. Where that place lies beyond the frames that stay,
/// nothing is replaced.
pub open spec fn replaced(frames: Seq<FrameView>, selected: Seq<usize>, added: Seq<FrameView>) -> Option<
    (Seq<FrameView>, Seq<usize>),
> {
    let left = picked(frames, selected, false, frames.len());
    let point = match smallest(selected, selected.len()) {
        Some(first) => first as int,
        None => frames.len() as int,
    };
    if point <= left.len() {
        Some((with_inserted(left, point, added), run_of(point, added.len())))
    } else {
        None
    }
}

/// Puts new frames in the place of the selected ones.
pub fn replace_frames(frames: &Vec<Frame>, selected: &Vec<usize>, added: &Vec<Frame>) -> (result:
    Option<(Vec<Frame>, Vec<usize>)>)
    ensures
        match result {
            Some((new_frames, new_selected)) => replaced(
                frame_views(frames@),
                selected@,
                frame_views(added@),
            ) == Some((frame_views(new_frames@), new_selected@)),
            None => replaced(frame_views(frames@), selected@, frame_views(added@)) is None,
        },
{
    let frame_count = frames.len();
    let added_count = added.len();
    let mut first: Option<usize> = None;
    let mut i: usize = 0;
    while i < selected.len()
        invariant
            0 <= i <= selected@.len(),
            first == smallest(selected@, i as nat),
        decreases selected@.len() - i,
    {
        first = match first {
            Some(before) => if selected[i] < before {
                Some(selected[i])
            } else {
                Some(before)
            },
            None => Some(selected[i]),
        };
        i += 1;
    }
    let point = match first {
        Some(first) => first,
        None => frame_count,
    };
    let left = delete_frames(frames, selected);
    if point <= left.len() {
        let new_frames = insert_frames(&left, point, added);
        let total = new_frames.len();
        proof {
            assert(frame_views(new_frames@).len() == total);
            assert(frame_views(left@).len() == left@.len());
            assert(frame_views(added@).len() == added_count);
            assert(frame_views(left@).take(point as int).len() == point);
        }
        let new_selected = select_run(point, added_count);
        Some((new_frames, new_selected))
    } else {
        None
    }
}

} // verus!
