//! What the window shows of the document: the payload of a redraw, and the
//! title.

use crate::file::FileState;
use crate::history::HistoryState;
use crate::selection::SelectionState;
use crate::view::ViewState;
use vstd::prelude::*;
use vstd::string::StringSliceAdditionalSpecFns;

verus! {

/// What the view needs to draw the frames again.
pub struct RedrawPayload {
    pub frame_count: usize,
    pub selected_frames: Vec<usize>,
    pub cols: usize,
    pub rows: usize,
}

/// The payload of a redraw.
pub fn redraw(frame_count: usize, selected_frames: &Vec<usize>, cols: usize, rows: usize) -> (payload:
    RedrawPayload)
    ensures
        payload.frame_count == frame_count,
        payload.selected_frames@ == selected_frames@,
        payload.cols == cols,
        payload.rows == rows,
{
    RedrawPayload { frame_count, selected_frames: selected_frames.clone(), cols, rows }
}

/// Forgets the document: no file, no frames, nothing selected, nothing to
/// go back to, and the zoom at one.
pub fn reset_state(
    file_state: &mut FileState,
    selection_state: &mut SelectionState,
    history_state: &mut HistoryState,
    view_state: &mut ViewState,
)
    ensures
        final(file_state).file_title@.len() == 0,
        final(file_state).file_path is None,
        !final(file_state).file_is_open,
        !final(file_state).file_is_modified,
        final(file_state).frames@.len() == 0,
        final(file_state).palette.file_name is None,
        final(file_state).palette.colors == crate::palette::ORIGINAL_COLORS,
        final(file_state).pixel_format == crate::format::PixelFormat::Format565,
        final(file_state).cols == 0,
        final(file_state).rows == 0,
        !final(file_state).read_only,
        final(selection_state).selected_frames@.len() == 0,
        final(history_state).undo_stack@.len() == 0,
        final(history_state).redo_stack@.len() == 0,
        final(view_state).zoom_scale == 1,
{
    *file_state = FileState::new();
    selection_state.selected_frames = Vec::new();
    history_state.undo_stack = Vec::new();
    history_state.redo_stack = Vec::new();
    view_state.zoom_scale = 1;
}

/// The first `count` of a list of texts, one behind the other.
pub open spec fn joined_text(parts: Seq<&str>, count: nat) -> Seq<char>
    decreases count,
{
    if count == 0 {
        Seq::empty()
    } else {
        joined_text(parts, (count - 1) as nat) + parts[count - 1]@
    }
}

/// The title of the window. Without an open file it is the name of the
/// program; else a star for unsaved changes, the name of the file or
/// "Untitled", a note for a file that cannot be saved, the name of the
/// palette in use, and the name of the program.
pub open spec fn title_text(
    file_is_open: bool,
    file_title: Seq<char>,
    file_is_modified: bool,
    read_only: bool,
    palette_name: Option<Seq<char>>,
) -> Seq<char> {
    if !file_is_open {
        "Spritist"@
    } else {
        (if file_is_modified {
            "*"@
        } else {
            Seq::empty()
        }) + (if file_title.len() > 0 {
            file_title
        } else {
            "Untitled"@
        }) + (if read_only {
            " (read-only)"@
        } else {
            Seq::empty()
        }) + (match palette_name {
            Some(name) => " - using "@ + name,
            None => Seq::empty(),
        }) + " - Spritist"@
    }
}

/// The title of the window, as the texts that it is joined from.
pub fn update_window_title<'a>(
    file_is_open: bool,
    file_title: &'a str,
    file_is_modified: bool,
    read_only: bool,
    palette_name: Option<&'a str>,
) -> (parts: Vec<&'a str>)
    ensures
        joined_text(parts@, parts@.len()) == title_text(
            file_is_open,
            file_title@,
            file_is_modified,
            read_only,
            match palette_name {
                Some(name) => Some(name@),
                None => None,
            },
        ),
{
    let mut parts: Vec<&'a str> = Vec::new();
    if !file_is_open {
        parts.push("Spritist");
        assert(joined_text(parts@, 1) =~= "Spritist"@) by {
            assert(joined_text(parts@, 0) =~= Seq::<char>::empty());
        }
        return parts;
    }
    let ghost mut text: Seq<char> = Seq::empty();
    if file_is_modified {
        parts.push("*");
        proof {
            text = text + "*"@;
        }
    }
    assert(text =~= (if file_is_modified {
        "*"@
    } else {
        Seq::<char>::empty()
    }));
    assert(joined_text(parts@, parts@.len()) =~= text) by {
        assert(joined_text(parts@, 0) =~= Seq::<char>::empty());
    }
    let ghost before = parts@;
    if !file_title.is_empty() {
        parts.push(file_title);
        proof {
            lemma_joined_push(before, file_title);
            text = text + file_title@;
        }
    } else {
        parts.push("Untitled");
        proof {
            lemma_joined_push(before, "Untitled");
            text = text + "Untitled"@;
        }
    }
    let ghost named = text;
    if read_only {
        let ghost before = parts@;
        parts.push(" (read-only)");
        proof {
            lemma_joined_push(before, " (read-only)");
            text = text + " (read-only)"@;
        }
    }
    assert(text =~= named + (if read_only {
        " (read-only)"@
    } else {
        Seq::<char>::empty()
    }));
    let ghost noted = text;
    match palette_name {
        Some(name) => {
            let ghost before = parts@;
            parts.push(" - using ");
            proof {
                lemma_joined_push(before, " - using ");
            }
            let ghost before = parts@;
            parts.push(name);
            proof {
                lemma_joined_push(before, name);
                text = text + " - using "@ + name@;
                assert(text =~= noted + (" - using "@ + name@));
            }
        },
        None => {
            assert(text =~= noted + Seq::<char>::empty());
        },
    }
    let ghost before = parts@;
    parts.push(" - Spritist");
    proof {
        lemma_joined_push(before, " - Spritist");
    }
    parts
}

/// One more text extends the texts joined so far.
pub proof fn lemma_joined_push(parts: Seq<&str>, part: &str)
    ensures
        joined_text(parts.push(part), parts.len() + 1) == joined_text(parts, parts.len()) + part@,
{
    lemma_joined_same(parts.push(part), parts, parts.len());
}

/// Lists that agree on their first texts join to the same text.
pub proof fn lemma_joined_same(first: Seq<&str>, second: Seq<&str>, count: nat)
    requires
        count <= first.len(),
        count <= second.len(),
        forall|i: int| 0 <= i < count ==> first[i] == second[i],
    ensures
        joined_text(first, count) == joined_text(second, count),
    decreases count,
{
    if count > 0 {
        lemma_joined_same(first, second, (count - 1) as nat);
    }
}

/// The first position of a hyphen among the first `count` bytes of a path,
/// if there is one.
pub open spec fn first_hyphen(path: Seq<u8>, count: nat) -> Option<int>
    decreases count,
{
    if count == 0 {
        None
    } else {
        match first_hyphen(path, (count - 1) as nat) {
            Some(at) => Some(at),
            None => if path[count - 1] == 45 {
                Some(count - 1)
            } else {
                None
            },
        }
    }
}

/// The number that the decimal digits from `from` up to `to` write, if all
/// of them are digits.
pub open spec fn digits_value(path: Seq<u8>, from: int, to: int) -> Option<int>
    decreases to - from,
{
    if to <= from {
        Some(0)
    } else if 48 <= path[to - 1] <= 57 {
        match digits_value(path, from, to - 1) {
            Some(value) => Some(value * 10 + (path[to - 1] - 48)),
            None => None,
        }
    } else {
        None
    }
}

/// The number of the frame that a request for a frame asks for: the decimal
/// number behind the first hyphen of its path, with or without a plus sign
/// in front. A path without hyphen, without digits, or with a number too
/// large for the machine asks for none.
pub open spec fn requested_frame(path: Seq<u8>) -> Option<usize> {
    match first_hyphen(path, path.len()) {
        None => None,
        Some(at) => {
            let start = if at + 1 < path.len() && path[at + 1] == 43 {
                at + 2
            } else {
                at + 1
            };
            if start >= path.len() {
                None
            } else {
                match digits_value(path, start, path.len() as int) {
                    Some(value) => if value <= usize::MAX {
                        Some(value as usize)
                    } else {
                        None
                    },
                    None => None,
                }
            }
        },
    }
}

/// A hyphen found among the first bytes is still the first among more.
proof fn lemma_first_hyphen_stays(path: Seq<u8>, count: nat, more: nat)
    requires
        count <= more,
        first_hyphen(path, count) is Some,
    ensures
        first_hyphen(path, more) == first_hyphen(path, count),
    decreases more,
{
    if more > count {
        lemma_first_hyphen_stays(path, count, (more - 1) as nat);
    }
}

/// The value of digits does not shrink when more digits follow.
proof fn lemma_digits_grow(path: Seq<u8>, from: int, to: int, more: int)
    requires
        from <= to <= more,
        digits_value(path, from, more) is Some,
    ensures
        digits_value(path, from, to) is Some,
        0 <= digits_value(path, from, to)->0 <= digits_value(path, from, more)->0,
    decreases more - to,
{
    lemma_digits_nonnegative(path, from, to);
    if to < more {
        lemma_digits_grow(path, from, to, more - 1);
        lemma_digits_nonnegative(path, from, more - 1);
    }
}

proof fn lemma_digits_nonnegative(path: Seq<u8>, from: int, to: int)
    ensures
        digits_value(path, from, to) matches Some(value) ==> value >= 0,
    decreases to - from,
{
    if to > from {
        lemma_digits_nonnegative(path, from, to - 1);
    }
}

/// A run of bytes that holds something else than digits writes no number,
/// however far it is read.
proof fn lemma_digits_fail(path: Seq<u8>, from: int, to: int, more: int)
    requires
        from <= to <= more,
        digits_value(path, from, to) is None,
    ensures
        digits_value(path, from, more) is None,
    decreases more - to,
{
    if to < more {
        lemma_digits_fail(path, from, to, more - 1);
    }
}

/// The number of the frame that the path of a request asks for.
pub fn frame_index(uri_path: &str) -> (index: Option<usize>)
    ensures
        index == requested_frame(uri_path.spec_bytes()),
{
    let path = uri_path.as_bytes();
    let size = path.len();
    let mut at: usize = 0;
    while at < size && path[at] != 45
        invariant
            0 <= at <= size,
            size == path@.len(),
            first_hyphen(path@, at as nat) is None,
        decreases size - at,
    {
        at += 1;
    }
    if at >= size {
        return None;
    }
    proof {
        assert(first_hyphen(path@, (at + 1) as nat) == Some(at as int));
        lemma_first_hyphen_stays(path@, (at + 1) as nat, size as nat);
    }
    let start: usize = if at + 1 < size && path[at + 1] == 43 {
        at + 2
    } else {
        at + 1
    };
    if start >= size {
        return None;
    }
    let mut value: usize = 0;
    let mut i: usize = start;
    while i < size
        invariant
            start <= i <= size,
            start < size,
            size == path@.len(),
            path@ == uri_path.spec_bytes(),
            first_hyphen(path@, size as nat) == Some(at as int),
            start == (if at + 1 < size && path@[at + 1] == 43 {
                at + 2
            } else {
                at + 1
            }),
            digits_value(path@, start as int, i as int) == Some(value as int),
        decreases size - i,
    {
        let byte = path[i];
        if byte < 48 || byte > 57 {
            proof {
                assert(digits_value(path@, start as int, i + 1) is None);
                lemma_digits_fail(path@, start as int, i + 1, size as int);
            }
            return None;
        }
        let digit = (byte - 48) as usize;
        if value > (usize::MAX - digit) / 10 {
            proof {
                assert(digits_value(path@, start as int, i + 1) == Some(value * 10 + digit));
                if digits_value(path@, start as int, size as int) is Some {
                    lemma_digits_grow(path@, start as int, i + 1, size as int);
                }
            }
            return None;
        }
        value = value * 10 + digit;
        i += 1;
    }
    Some(value)
}

} // verus!
