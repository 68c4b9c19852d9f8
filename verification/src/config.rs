//! The settings of the program and the text file that keeps them: one
//! setting per line, a name and a value with a colon between them.

use crate::state::{joined_text, lemma_joined_push};
use vstd::prelude::*;
use vstd::string::StringSliceAdditionalSpecFns;

verus! {

/// The colour shown behind transparent pixels.
#[derive(Clone, Copy, Debug, PartialEq, Eq, Structural)]
pub enum TransparentColor {
    Black,
    White,
    /// No colour: what is transparent stays so.
    Transparent,
}

/// The colours of the window.
#[derive(Clone, Copy, Debug, PartialEq, Eq, Structural)]
pub enum Theme {
    Dark,
    Light,
    Purple,
}

/// The settings.
#[derive(Clone, Copy, Debug, PartialEq, Eq, Structural)]
pub struct ConfigState {
    pub show_image_info: bool,
    pub transparent_color: TransparentColor,
    pub theme: Theme,
    pub show_toolbar: bool,
}

/// The settings as the view is told them, with names for the choices.
pub struct ConfigInfo {
    pub show_image_info: bool,
    pub transparent_color: String,
    pub theme: String,
    pub show_toolbar: bool,
}

impl TransparentColor {
    /// The name of the choice in the settings file.
    pub open spec fn text(self) -> Seq<char> {
        match self {
            TransparentColor::Black => "black"@,
            TransparentColor::White => "white"@,
            TransparentColor::Transparent => "none"@,
        }
    }

    pub fn name(self) -> (name: &'static str)
        ensures
            name@ == self.text(),
    {
        match self {
            TransparentColor::Black => "black",
            TransparentColor::White => "white",
            TransparentColor::Transparent => "none",
        }
    }
}

impl Theme {
    /// The name of the choice in the settings file.
    pub open spec fn text(self) -> Seq<char> {
        match self {
            Theme::Dark => "dark"@,
            Theme::Light => "light"@,
            Theme::Purple => "purple"@,
        }
    }

    pub fn name(self) -> (name: &'static str)
        ensures
            name@ == self.text(),
    {
        match self {
            Theme::Dark => "dark",
            Theme::Light => "light",
            Theme::Purple => "purple",
        }
    }
}

/// The name of a switch in the settings file.
pub open spec fn switch_text(on: bool) -> Seq<char> {
    if on {
        "true"@
    } else {
        "false"@
    }
}

impl ConfigState {
    /// The settings of a first start.
    pub fn new() -> (state: ConfigState)
        ensures
            state == (ConfigState {
                show_image_info: true,
                transparent_color: TransparentColor::Black,
                theme: Theme::Dark,
                show_toolbar: true,
            }),
    {
        ConfigState {
            show_image_info: true,
            transparent_color: TransparentColor::Black,
            theme: Theme::Dark,
            show_toolbar: true,
        }
    }
}

/// The settings as the view is told them.
pub fn get_config(state: &ConfigState) -> (info: ConfigInfo)
    ensures
        info.show_image_info == state.show_image_info,
        info.transparent_color@ == state.transparent_color.text(),
        info.theme@ == state.theme.text(),
        info.show_toolbar == state.show_toolbar,
{
    ConfigInfo {
        show_image_info: state.show_image_info,
        transparent_color: state.transparent_color.name().to_owned(),
        theme: state.theme.name().to_owned(),
        show_toolbar: state.show_toolbar,
    }
}

/// The text of the settings file.
pub open spec fn config_text(state: ConfigState) -> Seq<char> {
    "show_image_info: "@ + switch_text(state.show_image_info) + "\ntransparent_color: "@
        + state.transparent_color.text() + "\ntheme: "@ + state.theme.text() + "\nshow_toolbar: "@
        + switch_text(state.show_toolbar)
}

/// The text of the settings file, as the texts that it is joined from.
pub fn save_config_file(state: &ConfigState) -> (parts: Vec<&'static str>)
    ensures
        joined_text(parts@, parts@.len()) == config_text(*state),
{
    let mut parts: Vec<&'static str> = Vec::new();
    let ghost mut text: Seq<char> = Seq::empty();
    assert(joined_text(parts@, 0) =~= text);
    let show_image_info = if state.show_image_info {
        "true"
    } else {
        "false"
    };
    let show_toolbar = if state.show_toolbar {
        "true"
    } else {
        "false"
    };
    let pieces: [&'static str; 8] = [
        "show_image_info: ",
        show_image_info,
        "\ntransparent_color: ",
        state.transparent_color.name(),
        "\ntheme: ",
        state.theme.name(),
        "\nshow_toolbar: ",
        show_toolbar,
    ];
    let mut i: usize = 0;
    while i < 8
        invariant
            0 <= i <= 8,
            parts@.len() == i,
            forall|j: int| 0 <= j < i ==> parts@[j] == pieces@[j],
            joined_text(parts@, i as nat) == text,
            text == joined_text(pieces@, i as nat),
        decreases 8 - i,
    {
        let ghost before = parts@;
        parts.push(pieces[i]);
        proof {
            lemma_joined_push(before, pieces@[i as int]);
            text = text + pieces@[i as int]@;
        }
        i += 1;
    }
    proof {
        reveal_with_fuel(joined_text, 9);
        assert(joined_text(pieces@, 8) =~= config_text(*state));
    }
    parts
}

/// Whether a byte is blank: a space, or one of the five control characters
/// from tab to carriage return.
pub open spec fn is_blank(byte: u8) -> bool {
    byte == 32 || (9 <= byte && byte <= 13)
}

/// The first position from `from` on at which `bytes` holds `mark`, or the
/// length of `bytes` where it holds none.
pub open spec fn next_mark(bytes: Seq<u8>, mark: u8, from: int) -> int
    decreases bytes.len() - from,
{
    if from < 0 || from >= bytes.len() {
        bytes.len() as int
    } else if bytes[from] == mark {
        from
    } else {
        next_mark(bytes, mark, from + 1)
    }
}

/// The first position from `start` up to `end` that holds no blank.
pub open spec fn text_start(bytes: Seq<u8>, start: int, end: int) -> int
    decreases end - start,
{
    if start < end && 0 <= start < bytes.len() && is_blank(bytes[start]) {
        text_start(bytes, start + 1, end)
    } else {
        start
    }
}

/// The end of the text from `start` up to `end` when the blanks at its end
/// are cut off.
pub open spec fn text_end(bytes: Seq<u8>, start: int, end: int) -> int
    decreases end - start,
{
    if start < end && 0 < end <= bytes.len() && is_blank(bytes[end - 1]) {
        text_end(bytes, start, end - 1)
    } else {
        end
    }
}

/// The bytes from `start` up to `end` without the blanks at either side.
pub open spec fn trimmed(bytes: Seq<u8>, start: int, end: int) -> Seq<u8> {
    let first = text_start(bytes, start, end);
    bytes.subrange(first, text_end(bytes, first, end))
}

/// The settings after one line of the settings file: the line from `start`
/// up to `end` sets the setting that the text before its first colon names
/// to what the text between its first and its second colon says. A line
/// without a colon, or with another name, sets nothing.
pub open spec fn after_line(state: ConfigState, bytes: Seq<u8>, start: int, end: int) -> ConfigState {
    let line = bytes.subrange(start, end);
    let colon = next_mark(line, 58, 0);
    let second = next_mark(line, 58, colon + 1);
    let key = trimmed(line, 0, colon);
    let value = trimmed(line, colon + 1, second);
    if colon >= line.len() {
        state
    } else if key == "show_image_info".spec_bytes() {
        ConfigState { show_image_info: value != "false".spec_bytes(), ..state }
    } else if key == "transparent_color".spec_bytes() {
        ConfigState {
            transparent_color: if value == "white".spec_bytes() {
                TransparentColor::White
            } else if value == "none".spec_bytes() {
                TransparentColor::Transparent
            } else {
                TransparentColor::Black
            },
            ..state
        }
    } else if key == "theme".spec_bytes() {
        ConfigState {
            theme: if value == "light".spec_bytes() {
                Theme::Light
            } else if value == "purple".spec_bytes() {
                Theme::Purple
            } else {
                Theme::Dark
            },
            ..state
        }
    } else if key == "show_toolbar".spec_bytes() {
        ConfigState { show_toolbar: value != "false".spec_bytes(), ..state }
    } else {
        state
    }
}

/// The settings after the lines of the settings file from `from` on.
pub open spec fn after_lines(state: ConfigState, bytes: Seq<u8>, from: int) -> ConfigState
    decreases bytes.len() - from,
{
    if from < 0 || from > bytes.len() {
        state
    } else {
        let end = next_mark(bytes, 10, from);
        proof {
            lemma_next_mark(bytes, 10, from);
        }
        let next = after_line(state, bytes, from, end);
        if end >= bytes.len() {
            next
        } else {
            after_lines(next, bytes, end + 1)
        }
    }
}

/// A mark is found at or behind the place where the search starts, and not
/// beyond the end.
pub proof fn lemma_next_mark(bytes: Seq<u8>, mark: u8, from: int)
    requires
        0 <= from <= bytes.len(),
    ensures
        from <= next_mark(bytes, mark, from) <= bytes.len(),
        next_mark(bytes, mark, from) < bytes.len() ==> bytes[next_mark(bytes, mark, from)] == mark,
        forall|i: int| from <= i < next_mark(bytes, mark, from) ==> bytes[i] != mark,
    decreases bytes.len() - from,
{
    if from < bytes.len() && bytes[from] != mark {
        lemma_next_mark(bytes, mark, from + 1);
    }
}

fn find_mark(bytes: &[u8], mark: u8, from: usize, end: usize) -> (at: usize)
    requires
        from <= end <= bytes@.len(),
    ensures
        from <= at <= end,
        at == next_mark(bytes@.subrange(0, end as int), mark, from as int),
{
    let ghost line = bytes@.subrange(0, end as int);
    let mut at = from;
    while at < end && bytes[at] != mark
        invariant
            from <= at <= end <= bytes@.len(),
            line == bytes@.subrange(0, end as int),
            next_mark(line, mark, at as int) == next_mark(line, mark, from as int),
        decreases end - at,
    {
        at += 1;
    }
    at
}

fn trim(bytes: &[u8], start: usize, end: usize) -> (bounds: (usize, usize))
    requires
        start <= end <= bytes@.len(),
    ensures
        start <= bounds.0 <= bounds.1 <= end,
        bounds.0 == text_start(bytes@, start as int, end as int),
        bounds.1 == text_end(bytes@, bounds.0 as int, end as int),
{
    let mut first = start;
    while first < end && (bytes[first] == 32 || (9 <= bytes[first] && bytes[first] <= 13))
        invariant
            start <= first <= end <= bytes@.len(),
            text_start(bytes@, first as int, end as int) == text_start(
                bytes@,
                start as int,
                end as int,
            ),
        decreases end - first,
    {
        first += 1;
    }
    let mut last = end;
    while first < last && (bytes[last - 1] == 32 || (9 <= bytes[last - 1] && bytes[last - 1] <= 13))
        invariant
            first <= last <= end <= bytes@.len(),
            text_end(bytes@, first as int, last as int) == text_end(
                bytes@,
                first as int,
                end as int,
            ),
        decreases last - first,
    {
        last -= 1;
    }
    (first, last)
}

fn same_bytes(bytes: &[u8], start: usize, end: usize, name: &str) -> (same: bool)
    requires
        start <= end <= bytes@.len(),
    ensures
        same == (bytes@.subrange(start as int, end as int) == name.spec_bytes()),
{
    let other = name.as_bytes();
    if other.len() != end - start {
        return false;
    }
    let mut i: usize = 0;
    while i < end - start
        invariant
            0 <= i <= end - start,
            start <= end <= bytes@.len(),
            other@ == name.spec_bytes(),
            other@.len() == end - start,
            forall|j: int| 0 <= j < i ==> bytes@[start + j] == other@[j],
        decreases end - start - i,
    {
        if bytes[start + i] != other[i] {
            proof {
                assert(bytes@.subrange(start as int, end as int)[i as int] != other@[i as int]);
            }
            return false;
        }
        i += 1;
    }
    proof {
        assert(bytes@.subrange(start as int, end as int) =~= other@);
    }
    true
}

/// The place of a part of a line is the same in the line and in the file.
proof fn lemma_line_parts(bytes: Seq<u8>, start: int, end: int, from: int, to: int)
    requires
        0 <= start <= end <= bytes.len(),
        0 <= from <= to <= end - start,
    ensures
        text_start(bytes.subrange(start, end), from, to) + start == text_start(
            bytes,
            start + from,
            start + to,
        ),
        text_end(bytes.subrange(start, end), from, to) + start == text_end(
            bytes,
            start + from,
            start + to,
        ),
    decreases to - from,
{
    let line = bytes.subrange(start, end);
    if from < to {
        assert(line[from] == bytes[start + from]);
        assert(line[to - 1] == bytes[start + to - 1]);
        if is_blank(line[from]) {
            lemma_line_parts(bytes, start, end, from + 1, to);
        }
        if is_blank(line[to - 1]) {
            lemma_line_parts(bytes, start, end, from, to - 1);
        }
    }
}

/// A mark is found in a line where it is found in the file up to the end of
/// the line.
proof fn lemma_line_mark(bytes: Seq<u8>, start: int, end: int, mark: u8, from: int)
    requires
        0 <= start <= end <= bytes.len(),
        0 <= from <= end - start,
    ensures
        next_mark(bytes.subrange(start, end), mark, from) + start == next_mark(
            bytes.subrange(0, end),
            mark,
            start + from,
        ),
    decreases end - start - from,
{
    let line = bytes.subrange(start, end);
    let head = bytes.subrange(0, end);
    if from < end - start {
        assert(line[from] == head[start + from]);
        if line[from] != mark {
            lemma_line_mark(bytes, start, end, mark, from + 1);
        }
    }
}

fn apply_line(state: ConfigState, bytes: &[u8], start: usize, end: usize) -> (next: ConfigState)
    requires
        start <= end <= bytes@.len(),
    ensures
        next == after_line(state, bytes@, start as int, end as int),
{
    let ghost line = bytes@.subrange(start as int, end as int);
    let colon = find_mark(bytes, 58, start, end);
    proof {
        lemma_line_mark(bytes@, start as int, end as int, 58, 0);
        lemma_next_mark(line, 58, 0);
    }
    if colon >= end {
        return state;
    }
    let second = find_mark(bytes, 58, colon + 1, end);
    proof {
        lemma_line_mark(bytes@, start as int, end as int, 58, colon + 1 - start);
        lemma_next_mark(line, 58, colon + 1 - start);
        lemma_line_parts(bytes@, start as int, end as int, 0, colon - start);
        lemma_line_parts(bytes@, start as int, end as int, colon + 1 - start, second - start);
    }
    let key = trim(bytes, start, colon);
    let value = trim(bytes, colon + 1, second);
    proof {
        lemma_line_parts(bytes@, start as int, end as int, key.0 - start, colon - start);
        lemma_line_parts(bytes@, start as int, end as int, value.0 - start, second - start);
        assert(trimmed(line, 0, colon - start) =~= bytes@.subrange(key.0 as int, key.1 as int));
        assert(trimmed(line, colon + 1 - start, second - start) =~= bytes@.subrange(
            value.0 as int,
            value.1 as int,
        ));
    }
    if same_bytes(bytes, key.0, key.1, "show_image_info") {
        ConfigState { show_image_info: !same_bytes(bytes, value.0, value.1, "false"), ..state }
    } else if same_bytes(bytes, key.0, key.1, "transparent_color") {
        let new_color = if same_bytes(bytes, value.0, value.1, "white") {
            TransparentColor::White
        } else if same_bytes(bytes, value.0, value.1, "none") {
            TransparentColor::Transparent
        } else {
            TransparentColor::Black
        };
        ConfigState { transparent_color: new_color, ..state }
    } else if same_bytes(bytes, key.0, key.1, "theme") {
        let new_theme = if same_bytes(bytes, value.0, value.1, "light") {
            Theme::Light
        } else if same_bytes(bytes, value.0, value.1, "purple") {
            Theme::Purple
        } else {
            Theme::Dark
        };
        ConfigState { theme: new_theme, ..state }
    } else if same_bytes(bytes, key.0, key.1, "show_toolbar") {
        ConfigState { show_toolbar: !same_bytes(bytes, value.0, value.1, "false"), ..state }
    } else {
        state
    }
}

/// Reads the text of a settings file into the settings: each line that
/// names a setting sets it, the others are passed over.
pub fn load_config_file(state: ConfigState, config_contents: &str) -> (loaded: ConfigState)
    ensures
        loaded == after_lines(state, config_contents.spec_bytes(), 0),
{
    let bytes = config_contents.as_bytes();
    let size = bytes.len();
    let mut current = state;
    let mut from: usize = 0;
    loop
        invariant
            0 <= from <= size,
            size == bytes@.len(),
            bytes@ == config_contents.spec_bytes(),
            after_lines(current, bytes@, from as int) == after_lines(state, bytes@, 0),
        decreases size - from,
    {
        let end = find_mark(bytes, 10, from, size);
        proof {
            assert(bytes@.subrange(0, size as int) =~= bytes@);
            lemma_next_mark(bytes@, 10, from as int);
        }
        current = apply_line(current, bytes, from, end);
        if end >= size {
            return current;
        }
        from = end + 1;
    }
}

} // verus!
