//! The 256-colour palette of the indexed formats: lookup, exact and nearest
//! matching, loading, and moving frames from one palette to another.

use crate::buffer::{cursor_over, get_u8, remaining, unread};
use crate::error::{FormatError, Violation};
use crate::file::{frame_views, Frame, FrameView};
use crate::raster::{clear_pixel, lemma_index_in_grid, rgba, ImageView, RgbaImage};
use image::Rgba;
use vstd::prelude::*;

verus! {

/// The colours of the game's own palette.
pub const ORIGINAL_COLORS: [(u8, u8, u8); 256] = [
    (0, 0, 0), (252, 252, 252), (252, 252, 252), (252, 252, 252), (252, 252, 252), (252, 252, 252),
    (252, 252, 252), (252, 252, 252), (252, 252, 252), (252, 252, 252), (252, 252, 252), (16, 8, 8),
    (20, 24, 40), (24, 40, 16), (24, 36, 48), (44, 16, 8), (40, 24, 36), (52, 40, 16),
    (48, 44, 48), (24, 28, 68), (20, 52, 84), (24, 60, 96), (36, 28, 68), (44, 52, 72),
    (44, 56, 104), (28, 64, 28), (28, 64, 40), (52, 72, 24), (52, 72, 44), (60, 96, 24),
    (60, 96, 40), (24, 64, 92), (28, 64, 100), (52, 68, 80), (44, 76, 104), (56, 96, 76),
    (60, 96, 112), (72, 24, 8), (72, 28, 36), (80, 44, 16), (72, 52, 44), (104, 24, 12),
    (108, 28, 36), (108, 48, 16), (104, 52, 36), (72, 56, 72), (72, 56, 104), (104, 52, 72),
    (116, 52, 104), (80, 72, 20), (80, 72, 48), (80, 100, 24), (76, 104, 44), (112, 72, 20),
    (108, 76, 44), (112, 100, 20), (116, 100, 48), (76, 76, 76), (76, 84, 108), (84, 100, 80),
    (84, 100, 112), (104, 84, 76), (104, 88, 104), (112, 104, 80), (108, 108, 108), (48, 60, 132),
    (56, 92, 144), (64, 60, 132), (76, 88, 140), (72, 88, 176), (80, 104, 140), (72, 108, 172),
    (100, 88, 136), (100, 92, 172), (108, 112, 140), (108, 116, 168), (76, 92, 196), (80, 116, 200),
    (92, 112, 236), (104, 120, 204), (100, 120, 244), (104, 140, 52), (92, 132, 76), (92, 128, 104),
    (108, 140, 76), (116, 136, 112), (120, 164, 76), (120, 164, 104), (88, 128, 140), (92, 128, 184),
    (112, 132, 148), (116, 136, 172), (124, 164, 140), (120, 164, 176), (88, 132, 204), (88, 144, 228),
    (88, 164, 240), (112, 136, 204), (116, 136, 252), (120, 160, 216), (112, 164, 236), (140, 24, 16),
    (144, 28, 36), (136, 52, 16), (140, 52, 40), (172, 24, 16), (172, 28, 32), (168, 48, 16),
    (172, 48, 40), (152, 52, 72), (140, 76, 20), (140, 80, 40), (144, 104, 20), (144, 104, 48),
    (172, 80, 20), (168, 84, 40), (176, 104, 20), (172, 108, 44), (136, 84, 72), (136, 88, 108),
    (140, 108, 76), (136, 116, 108), (172, 80, 72), (176, 84, 100), (168, 116, 72), (172, 116, 104),
    (208, 44, 28), (212, 52, 72), (200, 84, 20), (200, 84, 40), (204, 104, 20), (204, 112, 44),
    (232, 80, 20), (232, 80, 44), (232, 116, 20), (232, 116, 40), (204, 80, 72), (204, 84, 100),
    (204, 116, 72), (200, 116, 104), (232, 80, 80), (236, 88, 96), (240, 112, 72), (236, 112, 112),
    (144, 60, 132), (140, 80, 132), (132, 120, 144), (132, 120, 168), (168, 120, 136), (164, 124, 164),
    (128, 124, 196), (208, 48, 128), (216, 112, 136), (236, 116, 204), (164, 136, 44), (148, 132, 80),
    (144, 136, 112), (136, 172, 80), (140, 172, 108), (176, 136, 80), (172, 140, 108), (180, 164, 80),
    (180, 168, 112), (156, 196, 60), (164, 208, 92), (208, 136, 24), (208, 136, 48), (212, 168, 20),
    (208, 168, 44), (240, 140, 20), (236, 140, 44), (244, 172, 20), (244, 172, 48), (204, 140, 76),
    (200, 148, 104), (208, 168, 80), (208, 168, 112), (236, 144, 72), (236, 144, 100), (240, 172, 76),
    (236, 176, 108), (208, 196, 56), (244, 204, 12), (248, 204, 48), (252, 240, 12), (252, 236, 44),
    (212, 196, 80), (212, 196, 112), (200, 244, 80), (204, 244, 108), (248, 200, 76), (244, 204, 108),
    (248, 236, 76), (252, 232, 112), (140, 136, 144), (140, 144, 172), (144, 168, 144), (148, 168, 180),
    (168, 144, 140), (164, 152, 176), (176, 168, 144), (172, 168, 180), (136, 148, 204), (132, 152, 248),
    (148, 164, 208), (144, 168, 252), (160, 156, 196), (172, 172, 204), (164, 184, 244), (168, 200, 168),
    (152, 196, 196), (176, 192, 208), (168, 196, 252), (176, 232, 196), (184, 228, 232), (204, 144, 144),
    (200, 152, 164), (204, 176, 140), (200, 176, 176), (236, 144, 140), (236, 144, 164), (232, 180, 136),
    (232, 180, 168), (196, 184, 200), (196, 188, 224), (244, 172, 204), (212, 200, 144), (208, 200, 176),
    (204, 240, 136), (204, 228, 176), (240, 204, 144), (236, 208, 172), (248, 232, 144), (248, 236, 176),
    (212, 200, 204), (200, 200, 232), (212, 228, 204), (216, 232, 228), (228, 212, 208), (224, 208, 224),
    (240, 232, 208), (244, 244, 236), (252, 252, 252), (0, 0, 0), (0, 0, 0), (0, 0, 0),
    (255, 255, 255), (192, 192, 192), (128, 128, 128), (255, 0, 0), (0, 255, 0), (255, 255, 0),
    (0, 0, 255), (255, 0, 255), (0, 255, 255), (255, 255, 255),
];

/// A table of 256 colours without alpha. Index 0 stands for "transparent"
/// whatever colour is stored there.
pub struct Palette {
    pub file_name: Option<String>,
    pub colors: [(u8, u8, u8); 256],
}

impl Clone for Palette {
    fn clone(&self) -> (copy: Palette)
        ensures
            copy.colors == self.colors,
            copy.file_name is Some == self.file_name is Some,
            copy.file_name matches Some(name) ==> name@ == self.file_name->0@,
    {
        Palette {
            file_name: match &self.file_name {
                Some(name) => Some(name.clone()),
                None => None,
            },
            colors: self.colors,
        }
    }
}

/// The pixel that a palette index stands for: transparent for index 0, the
/// stored colour, opaque, for any other.
pub open spec fn color_at(colors: Seq<(u8, u8, u8)>, index: u8) -> Rgba<u8> {
    if index == 0 {
        clear_pixel()
    } else {
        rgba(colors[index as int].0, colors[index as int].1, colors[index as int].2, 255)
    }
}

/// Whether a palette entry has exactly the red, green and blue of `color`.
pub open spec fn same_rgb(color: Rgba<u8>, entry: (u8, u8, u8)) -> bool {
    entry.0 == color.0[0] && entry.1 == color.0[1] && entry.2 == color.0[2]
}

/// The squared Euclidean distance in RGB between `color` and a palette entry.
pub open spec fn distance(color: Rgba<u8>, entry: (u8, u8, u8)) -> int {
    (color.0[0] - entry.0) * (color.0[0] - entry.0) + (color.0[1] - entry.1) * (color.0[1]
        - entry.1) + (color.0[2] - entry.2) * (color.0[2] - entry.2)
}

/// Whether `index` is the lowest index among the first `count` entries at
/// which no other of them is closer to `color`.
pub open spec fn is_nearest(
    colors: Seq<(u8, u8, u8)>,
    color: Rgba<u8>,
    count: int,
    index: int,
) -> bool {
    &&& 0 <= index < count
    &&& forall|j: int|
        0 <= j < count ==> distance(color, colors[index]) <= #[trigger] distance(color, colors[j])
    &&& forall|j: int|
        0 <= j < index ==> distance(color, colors[index]) < #[trigger] distance(color, colors[j])
}

/// The entry nearest to `color` among the first `count`, the lowest index
/// where several are equally near.
pub open spec fn nearest_among(colors: Seq<(u8, u8, u8)>, color: Rgba<u8>, count: nat) -> int
    decreases count,
{
    if count <= 1 {
        0
    } else {
        let best = nearest_among(colors, color, (count - 1) as nat);
        if distance(color, colors[count - 1]) < distance(color, colors[best]) {
            count - 1
        } else {
            best
        }
    }
}

/// The palette index that encodes `color`: 0 for a fully transparent pixel,
/// the nearest entry for any other.
pub open spec fn closest_index(colors: Seq<(u8, u8, u8)>, color: Rgba<u8>) -> u8 {
    if color.0[3] == 0 {
        0
    } else {
        nearest_among(colors, color, 256) as u8
    }
}

/// The lowest index among the first `count` entries with the colour's exact
/// red, green and blue, if there is one.
pub open spec fn first_match(colors: Seq<(u8, u8, u8)>, color: Rgba<u8>, count: nat) -> Option<
    int,
>
    decreases count,
{
    if count == 0 {
        None
    } else {
        match first_match(colors, color, (count - 1) as nat) {
            Some(index) => Some(index),
            None => if same_rgb(color, colors[count - 1]) {
                Some(count - 1)
            } else {
                None
            },
        }
    }
}

/// The palette index that stands for exactly `color`, if there is one: 0 for a
/// fully transparent pixel, else the lowest index with the same red, green
/// and blue.
pub open spec fn exact_index(colors: Seq<(u8, u8, u8)>, color: Rgba<u8>) -> Option<u8> {
    if color.0[3] == 0 {
        Some(0u8)
    } else {
        match first_match(colors, color, 256) {
            Some(index) => Some(index as u8),
            None => None,
        }
    }
}

/// The nearest palette index of each pixel, in order.
pub open spec fn closest_indexes(colors: Seq<(u8, u8, u8)>, pixels: Seq<Rgba<u8>>) -> Seq<u8> {
    Seq::new(pixels.len(), |i: int| closest_index(colors, pixels[i]))
}

/// The pixels that the first `count` of `indexes` stand for.
pub open spec fn indexed_pixels(colors: Seq<(u8, u8, u8)>, indexes: Seq<u8>, count: nat) -> Seq<
    Rgba<u8>,
> {
    Seq::new(count, |i: int| color_at(colors, indexes[i]))
}

/// The image that palette indexes stand for.
pub open spec fn indexed_image(
    colors: Seq<(u8, u8, u8)>,
    width: nat,
    height: nat,
    indexes: Seq<u8>,
) -> ImageView {
    ImageView { width, height, pixels: indexed_pixels(colors, indexes, width * height) }
}

/// `nearest_among` finds the lowest index that is as near as any.
pub proof fn lemma_nearest_among(colors: Seq<(u8, u8, u8)>, color: Rgba<u8>, count: nat)
    requires
        count >= 1,
    ensures
        is_nearest(colors, color, count as int, nearest_among(colors, color, count)),
    decreases count,
{
    if count > 1 {
        lemma_nearest_among(colors, color, (count - 1) as nat);
    }
}

/// At most one index is the lowest nearest one.
pub proof fn lemma_nearest_unique(
    colors: Seq<(u8, u8, u8)>,
    color: Rgba<u8>,
    count: int,
    first: int,
    second: int,
)
    requires
        is_nearest(colors, color, count, first),
        is_nearest(colors, color, count, second),
    ensures
        first == second,
{
    if first < second {
        assert(distance(color, colors[second]) < distance(color, colors[first]));
        assert(distance(color, colors[first]) <= distance(color, colors[second]));
    } else if second < first {
        assert(distance(color, colors[first]) < distance(color, colors[second]));
        assert(distance(color, colors[second]) <= distance(color, colors[first]));
    }
}

/// `first_match` finds the lowest matching index, and finds none only where
/// no entry matches.
pub proof fn lemma_first_match(colors: Seq<(u8, u8, u8)>, color: Rgba<u8>, count: nat)
    ensures
        match first_match(colors, color, count) {
            Some(index) => 0 <= index < count && same_rgb(color, colors[index]) && forall|j: int|
                0 <= j < index ==> !same_rgb(color, #[trigger] colors[j]),
            None => forall|j: int| 0 <= j < count ==> !same_rgb(color, #[trigger] colors[j]),
        },
    decreases count,
{
    if count > 0 {
        lemma_first_match(colors, color, (count - 1) as nat);
    }
}

/// A match found among the first entries is still the first match among more.
pub proof fn lemma_first_match_stays(
    colors: Seq<(u8, u8, u8)>,
    color: Rgba<u8>,
    count: nat,
    more: nat,
)
    requires
        count <= more,
        first_match(colors, color, count) is Some,
    ensures
        first_match(colors, color, more) == first_match(colors, color, count),
    decreases more,
{
    if more > count {
        lemma_first_match_stays(colors, color, count, (more - 1) as nat);
    }
}

/// A colour that a palette holds exactly is its own nearest entry: nearest
/// matching and exact matching agree wherever the exact match exists.
pub proof fn lemma_exact_is_closest(colors: Seq<(u8, u8, u8)>, color: Rgba<u8>)
    requires
        exact_index(colors, color) is Some,
    ensures
        exact_index(colors, color) == Some(closest_index(colors, color)),
{
    if color.0[3] != 0 {
        lemma_first_match(colors, color, 256);
        lemma_nearest_among(colors, color, 256);
        let found = first_match(colors, color, 256)->0;
        let best = nearest_among(colors, color, 256);
        lemma_distance_bounds(color, colors[found]);
        assert(distance(color, colors[found]) == 0);
        assert forall|j: int| 0 <= j < 256 implies distance(color, colors[found]) <= #[trigger] distance(
            color,
            colors[j],
        ) by {
            lemma_distance_bounds(color, colors[j]);
        }
        assert forall|j: int| 0 <= j < found implies distance(color, colors[found]) < #[trigger] distance(
            color,
            colors[j],
        ) by {
            lemma_distance_bounds(color, colors[j]);
            assert(!same_rgb(color, colors[j]));
        }
        lemma_nearest_unique(colors, color, 256, found, best);
    }
}

/// A distance lies between 0 and 3 * 255 * 255, and is 0 only for the same colour.
pub proof fn lemma_distance_bounds(color: Rgba<u8>, entry: (u8, u8, u8))
    ensures
        0 <= distance(color, entry) <= 195075,
        distance(color, entry) == 0 <==> same_rgb(color, entry),
{
    let dr = color.0[0] - entry.0;
    let dg = color.0[1] - entry.1;
    let db = color.0[2] - entry.2;
    assert(0 <= dr * dr <= 65025 && (dr * dr == 0 <==> dr == 0)) by (nonlinear_arith)
        requires
            -255 <= dr <= 255,
    ;
    assert(0 <= dg * dg <= 65025 && (dg * dg == 0 <==> dg == 0)) by (nonlinear_arith)
        requires
            -255 <= dg <= 255,
    ;
    assert(0 <= db * db <= 65025 && (db * db == 0 <==> db == 0)) by (nonlinear_arith)
        requires
            -255 <= db <= 255,
    ;
}

/// The ten colours that the game keeps at the end of every palette.
pub open spec fn system_color(index: int) -> (u8, u8, u8) {
    if index == 246 {
        (255u8, 255u8, 255u8)
    } else if index == 247 {
        (192u8, 192u8, 192u8)
    } else if index == 248 {
        (128u8, 128u8, 128u8)
    } else if index == 249 {
        (255u8, 0u8, 0u8)
    } else if index == 250 {
        (0u8, 255u8, 0u8)
    } else if index == 251 {
        (255u8, 255u8, 0u8)
    } else if index == 252 {
        (0u8, 0u8, 255u8)
    } else if index == 253 {
        (255u8, 0u8, 255u8)
    } else if index == 254 {
        (0u8, 255u8, 255u8)
    } else {
        (255u8, 255u8, 255u8)
    }
}

/// A table with its last ten entries replaced by the system colours.
pub open spec fn with_system_colors(colors: Seq<(u8, u8, u8)>) -> Seq<(u8, u8, u8)> {
    Seq::new(
        256,
        |i: int|
            if i >= 246 {
                system_color(i)
            } else {
                colors[i]
            },
    )
}

/// A 6-bit sample scaled to eight bits: times four, kept in a byte.
pub open spec fn scaled(sample: u8) -> u8 {
    ((sample * 4) % 256) as u8
}

/// The table that a palette file holds: 256 triples of 6-bit samples, each
/// scaled, the last ten entries replaced by the system colours.
pub open spec fn loaded_colors(contents: Seq<u8>) -> Seq<(u8, u8, u8)> {
    with_system_colors(
        Seq::new(
            256,
            |i: int|
                (scaled(contents[3 * i]), scaled(contents[3 * i + 1]), scaled(contents[3 * i + 2])),
        ),
    )
}

/// The game's palette read backwards, the system colours in place again.
pub open spec fn reversed_colors() -> Seq<(u8, u8, u8)> {
    with_system_colors(Seq::new(256, |i: int| ORIGINAL_COLORS@[255 - i]))
}

impl Palette {
    /// The pixel that `color_index` stands for. Index 0 is transparent in
    /// every palette.
    pub fn get_color(&self, color_index: u8) -> (color: Rgba<u8>)
        ensures
            color == color_at(self.colors@, color_index),
            color_index == 0 ==> color.0[3] == 0,
    {
        if color_index == 0 {
            Rgba([0, 0, 0, 0])
        } else {
            let entry = self.colors[color_index as usize];
            Rgba([entry.0, entry.1, entry.2, 255])
        }
    }

    /// The index that stands for exactly this colour: 0 for a fully
    /// transparent pixel, else the lowest index whose entry has the same red,
    /// green and blue; `None` where no entry has.
    pub fn find_color_index(&self, color: Rgba<u8>) -> (found: Option<u8>)
        ensures
            found == exact_index(self.colors@, color),
            color.0[3] == 0 ==> found == Some(0u8),
            color.0[3] != 0 ==> match found {
                Some(index) => same_rgb(color, self.colors@[index as int]) && forall|j: int|
                    0 <= j < index ==> !same_rgb(color, #[trigger] self.colors@[j]),
                None => forall|j: int| 0 <= j < 256 ==> !same_rgb(color, #[trigger] self.colors@[j]),
            },
    {
        if color.0[3] == 0 {
            return Some(0);
        }
        proof {
            lemma_first_match(self.colors@, color, 256);
        }
        let mut i: usize = 0;
        while i < 256
            invariant
                0 <= i <= 256,
                color.0[3] != 0,
                first_match(self.colors@, color, i as nat) is None,
            decreases 256 - i,
        {
            let entry = self.colors[i];
            if entry.0 == color.0[0] && entry.1 == color.0[1] && entry.2 == color.0[2] {
                proof {
                    assert(first_match(self.colors@, color, (i + 1) as nat) == Some(i as int));
                    lemma_first_match_stays(self.colors@, color, (i + 1) as nat, 256);
                    lemma_first_match(self.colors@, color, 256);
                }
                return Some(i as u8);
            }
            i += 1;
        }
        None
    }

    /// The index that encodes this colour best: 0 for a fully transparent
    /// pixel, else the entry at the least squared distance in RGB, the lowest
    /// index where several are equally near.
    pub fn find_closest_color_index(&self, color: &Rgba<u8>) -> (index: u8)
        ensures
            index == closest_index(self.colors@, *color),
            color.0[3] == 0 ==> index == 0,
            color.0[3] != 0 ==> is_nearest(self.colors@, *color, 256, index as int),
    {
        if color.0[3] == 0 {
            return 0;
        }
        proof {
            lemma_nearest_among(self.colors@, *color, 256);
        }
        let mut best_fit_index: u8 = 0;
        let mut best_fit_dist: i32 = 255 * 255 * 3;
        let mut i: usize = 0;
        while i < 256
            invariant
                0 <= i <= 256,
                i == 0 ==> best_fit_index == 0 && best_fit_dist == 195075,
                i > 0 ==> best_fit_index == nearest_among(self.colors@, *color, i as nat)
                    && best_fit_dist == distance(*color, self.colors@[best_fit_index as int]),
                i > 0 ==> is_nearest(self.colors@, *color, i as int, best_fit_index as int),
            decreases 256 - i,
        {
            let entry = self.colors[i];
            proof {
                lemma_distance_bounds(*color, entry);
                if i > 0 {
                    lemma_nearest_among(self.colors@, *color, (i + 1) as nat);
                }
            }
            let dr: i32 = color.0[0] as i32 - entry.0 as i32;
            let dg: i32 = color.0[1] as i32 - entry.1 as i32;
            let db: i32 = color.0[2] as i32 - entry.2 as i32;
            assert(0 <= dr * dr <= 65025) by (nonlinear_arith)
                requires
                    -255 <= dr <= 255,
            ;
            assert(0 <= dg * dg <= 65025) by (nonlinear_arith)
                requires
                    -255 <= dg <= 255,
            ;
            assert(0 <= db * db <= 65025) by (nonlinear_arith)
                requires
                    -255 <= db <= 255,
            ;
            let dist_to_color: i32 = dr * dr + dg * dg + db * db;
            if dist_to_color < best_fit_dist {
                best_fit_index = i as u8;
                best_fit_dist = dist_to_color;
            }
            proof {
                if i == 0 {
                    assert(nearest_among(self.colors@, *color, 1) == 0);
                    lemma_nearest_among(self.colors@, *color, 1);
                }
            }
            i += 1;
        }
        best_fit_index
    }

    /// The nearest index of every pixel of `image`, in row-major order.
    pub fn get_closest_color_indexes(&self, image: &RgbaImage) -> (color_indexes: Vec<u8>)
        ensures
            color_indexes@ == closest_indexes(self.colors@, image@.pixels),
            color_indexes@.len() == image@.width * image@.height,
    {
        let width = image.width();
        let height = image.height();
        let mut color_indexes: Vec<u8> = Vec::new();
        let mut y: u32 = 0;
        while y < height
            invariant
                0 <= y <= height,
                width == image@.width,
                height == image@.height,
                image@.wf(),
                color_indexes@.len() == y * width,
                forall|i: int|
                    0 <= i < y * width ==> color_indexes@[i] == closest_index(
                        self.colors@,
                        image@.pixels[i],
                    ),
            decreases height - y,
        {
            let mut x: u32 = 0;
            while x < width
                invariant
                    0 <= x <= width,
                    0 <= y < height,
                    width == image@.width,
                    height == image@.height,
                    image@.wf(),
                    color_indexes@.len() == y * width + x,
                    forall|i: int|
                        0 <= i < y * width + x ==> color_indexes@[i] == closest_index(
                            self.colors@,
                            image@.pixels[i],
                        ),
                decreases width - x,
            {
                proof {
                    lemma_index_in_grid(x as int, y as int, width as int, height as int);
                }
                let color = image.get_pixel(x, y);
                let color_index = self.find_closest_color_index(&color);
                color_indexes.push(color_index);
                x += 1;
            }
            proof {
                assert((y + 1) * width == y * width + width) by (nonlinear_arith);
            }
            y += 1;
        }
        proof {
            assert(height * width == width * height) by (nonlinear_arith);
            assert(color_indexes@ =~= closest_indexes(self.colors@, image@.pixels));
        }
        color_indexes
    }

    /// The image that `color_indexes` stand for in this palette, `width` by
    /// `height`; `None` when there are fewer indexes than pixels or the image
    /// cannot be allocated.
    pub fn render(&self, width: u32, height: u32, color_indexes: &Vec<u8>) -> (rendered: Option<
        RgbaImage,
    >)
        ensures
            rendered is Some <==> color_indexes@.len() >= width * height && crate::raster::allocatable(
                width as int,
                height as int,
            ),
            rendered matches Some(image) ==> image@ == indexed_image(
                self.colors@,
                width as nat,
                height as nat,
                color_indexes@,
            ) && image@.wf(),
    {
        proof {
            crate::raster::lemma_product_bounded(
                width as int,
                height as int,
                u32::MAX as int,
                u32::MAX as int,
            );
        }
        if (color_indexes.len() as u64) < (width as u64) * (height as u64) {
            return None;
        }
        let mut image = match RgbaImage::new(width, height) {
            Some(image) => image,
            None => {
                return None;
            },
        };
        let count = color_indexes.len();
        let mut i: usize = 0;
        let mut y: u32 = 0;
        while y < height
            invariant
                0 <= y <= height,
                i == y * width,
                i <= width * height,
                count == color_indexes@.len(),
                width * height <= color_indexes@.len(),
                image@.width == width,
                image@.height == height,
                image@.pixels.len() == width * height,
                forall|j: int|
                    0 <= j < i ==> image@.pixels[j] == color_at(self.colors@, color_indexes@[j]),
            decreases height - y,
        {
            let mut x: u32 = 0;
            while x < width
                invariant
                    0 <= x <= width,
                    0 <= y < height,
                    i == y * width + x,
                    i <= width * height,
                    count == color_indexes@.len(),
                    width * height <= color_indexes@.len(),
                    image@.width == width,
                    image@.height == height,
                    image@.pixels.len() == width * height,
                    forall|j: int|
                        0 <= j < i ==> image@.pixels[j] == color_at(self.colors@, color_indexes@[j]),
                decreases width - x,
            {
                proof {
                    lemma_index_in_grid(x as int, y as int, width as int, height as int);
                }
                let pixel = self.get_color(color_indexes[i]);
                image.put_pixel(x, y, pixel);
                i += 1;
                x += 1;
            }
            proof {
                lemma_index_in_grid(0, y as int, width as int + 1, height as int);
                assert((y + 1) * width == y * width + width) by (nonlinear_arith);
                assert((y + 1) * width <= height * width) by (nonlinear_arith)
                    requires
                        y + 1 <= height,
                        width >= 0,
                ;
                assert(height * width == width * height) by (nonlinear_arith);
            }
            y += 1;
        }
        proof {
            assert(height * width == width * height) by (nonlinear_arith);
            assert(image@.pixels =~= indexed_pixels(
                self.colors@,
                color_indexes@,
                (width * height) as nat,
            ));
        }
        Some(image)
    }
}

/// Index 0 is transparent in every palette, whatever colour it stores.
pub proof fn lemma_index_zero_is_clear(colors: Seq<(u8, u8, u8)>)
    ensures
        color_at(colors, 0).0[3] == 0,
        color_at(colors, 0) == clear_pixel(),
{
}

/// Puts the ten system colours at the end of a table, as the game does with
/// every palette it loads.
pub fn format_colors(colors: [(u8, u8, u8); 256]) -> (formatted: [(u8, u8, u8); 256])
    ensures
        formatted@ == with_system_colors(colors@),
{
    let mut formatted = colors;
    formatted[246] = (255, 255, 255);
    formatted[247] = (192, 192, 192);
    formatted[248] = (128, 128, 128);
    formatted[249] = (255, 0, 0);
    formatted[250] = (0, 255, 0);
    formatted[251] = (255, 255, 0);
    formatted[252] = (0, 0, 255);
    formatted[253] = (255, 0, 255);
    formatted[254] = (0, 255, 255);
    formatted[255] = (255, 255, 255);
    assert(formatted@ =~= with_system_colors(colors@));
    formatted
}

fn scale_sample(sample: u8) -> (value: u8)
    ensures
        value == scaled(sample),
{
    (((sample as u16) * 4) % 256) as u8
}

/// Reads the colour table of a palette file: 256 triples of 6-bit samples,
/// each multiplied by four, then the system colours over the last ten
/// entries. A source of fewer than 768 bytes is rejected.
pub fn read_color_data(contents: &[u8]) -> (loaded: Result<[(u8, u8, u8); 256], FormatError>)
    ensures
        contents@.len() < 768 ==> loaded == Err::<[(u8, u8, u8); 256], FormatError>(
            FormatError::StructuralViolation(Violation::InvalidPaletteSize),
        ),
        contents@.len() >= 768 ==> loaded is Ok && loaded->Ok_0@ == loaded_colors(contents@),
{
    let mut buffer = cursor_over(contents);
    if remaining(&buffer) < 768 {
        return Err(FormatError::StructuralViolation(Violation::InvalidPaletteSize));
    }
    let mut colors: [(u8, u8, u8); 256] = [(0, 0, 0);256];
    let mut i: usize = 0;
    while i < 256
        invariant
            0 <= i <= 256,
            contents@.len() >= 768,
            unread(buffer) == contents@.skip(3 * i),
            forall|j: int|
                0 <= j < i ==> colors@[j] == (
                    scaled(contents@[3 * j]),
                    scaled(contents@[3 * j + 1]),
                    scaled(contents@[3 * j + 2]),
                ),
        decreases 256 - i,
    {
        let r = scale_sample(get_u8(&mut buffer));
        let g = scale_sample(get_u8(&mut buffer));
        let b = scale_sample(get_u8(&mut buffer));
        colors[i] = (r, g, b);
        proof {
            assert(contents@.skip(3 * i).skip(1) =~= contents@.skip(3 * i + 1));
            assert(contents@.skip(3 * i + 1).skip(1) =~= contents@.skip(3 * i + 2));
            assert(contents@.skip(3 * i + 2).skip(1) =~= contents@.skip(3 * (i + 1)));
        }
        i += 1;
    }
    let formatted = format_colors(colors);
    assert(formatted@ =~= loaded_colors(contents@));
    Ok(formatted)
}

/// The palette that a palette file holds, under the name of the file.
pub fn load_palette(file_name: Option<String>, contents: &[u8]) -> (loaded: Result<
    Palette,
    FormatError,
>)
    ensures
        contents@.len() < 768 ==> loaded matches Err(
            FormatError::StructuralViolation(Violation::InvalidPaletteSize),
        ),
        contents@.len() >= 768 ==> loaded is Ok && loaded->Ok_0.file_name == file_name
            && loaded->Ok_0.colors@ == loaded_colors(contents@),
{
    match read_color_data(contents) {
        Ok(colors) => Ok(Palette { file_name, colors }),
        Err(error) => Err(error),
    }
}

/// The game's own palette.
pub fn original_palette() -> (palette: Palette)
    ensures
        palette.file_name is None,
        palette.colors == ORIGINAL_COLORS,
{
    Palette { file_name: None, colors: ORIGINAL_COLORS }
}

/// The game's palette read backwards, with the system colours put back at
/// its end.
pub fn reversed_palette() -> (palette: Palette)
    ensures
        palette.file_name matches Some(name) && name@ == "reversed palette"@,
        palette.colors@ == reversed_colors(),
{
    let file_name = Some("reversed palette".to_string());
    let original = original_palette().colors;
    let mut colors: [(u8, u8, u8); 256] = [(0, 0, 0);256];
    let mut i: usize = 0;
    while i < 256
        invariant
            0 <= i <= 256,
            original == ORIGINAL_COLORS,
            forall|j: int| 0 <= j < i ==> colors@[j] == ORIGINAL_COLORS@[255 - j],
        decreases 256 - i,
    {
        colors[i] = original[255 - i];
        i += 1;
    }
    let formatted = format_colors(colors);
    assert(formatted@ =~= reversed_colors());
    Palette { file_name, colors: formatted }
}

/// A frame seen through another palette: the same indexes, the colours of
/// the new palette. A frame that lacks an index for one of its pixels is
/// rejected.
pub open spec fn swapped(colors: Seq<(u8, u8, u8)>, frame: FrameView) -> Result<
    FrameView,
    FormatError,
> {
    if frame.color_indexes.len() < frame.image.width * frame.image.height {
        Err(FormatError::StructuralViolation(Violation::MissingColorIndexes))
    } else {
        Ok(
            FrameView {
                image: indexed_image(
                    colors,
                    frame.image.width,
                    frame.image.height,
                    frame.color_indexes,
                ),
                color_indexes: frame.color_indexes,
            },
        )
    }
}

/// A frame brought into another palette: each pixel gets the index of the
/// nearest colour of the new palette, and that colour.
pub open spec fn translated(colors: Seq<(u8, u8, u8)>, frame: FrameView) -> FrameView {
    FrameView {
        image: indexed_image(
            colors,
            frame.image.width,
            frame.image.height,
            closest_indexes(colors, frame.image.pixels),
        ),
        color_indexes: closest_indexes(colors, frame.image.pixels),
    }
}

/// The frames of a sprite seen through another palette, as a function of the
/// frame index.
pub open spec fn swaps_of(colors: Seq<(u8, u8, u8)>, frames: Seq<FrameView>) -> spec_fn(
    int,
) -> Result<FrameView, FormatError> {
    |index: int| swapped(colors, frames[index])
}

/// Shows a frame in another palette without changing its indexes.
pub fn swap_palette_for_frame(frame: &Frame, palette: &Palette) -> (result: Result<
    Frame,
    FormatError,
>)
    ensures
        match result {
            Ok(new_frame) => swapped(palette.colors@, frame@) == Ok::<FrameView, FormatError>(
                new_frame@,
            ) && new_frame@.image.wf(),
            Err(error) => swapped(palette.colors@, frame@) == Err::<FrameView, FormatError>(error),
        },
{
    let width = frame.image.width();
    let height = frame.image.height();
    match palette.render(width, height, &frame.color_indexes) {
        Some(new_image) => Ok(Frame { image: new_image, color_indexes: frame.color_indexes.clone() }),
        None => Err(FormatError::StructuralViolation(Violation::MissingColorIndexes)),
    }
}

/// Brings a frame into another palette by matching each pixel to the
/// nearest colour.
pub fn translate_colors_for_frame(frame: &Frame, palette: &Palette) -> (result: Result<
    Frame,
    FormatError,
>)
    ensures
        result is Ok,
        result->Ok_0@ == translated(palette.colors@, frame@),
        result->Ok_0@.image.wf(),
{
    let width = frame.image.width();
    let height = frame.image.height();
    let color_indexes: Vec<u8> = palette.get_closest_color_indexes(&frame.image);
    match palette.render(width, height, &color_indexes) {
        Some(new_image) => Ok(Frame { image: new_image, color_indexes }),
        None => Err(FormatError::StructuralViolation(Violation::MissingColorIndexes)),
    }
}

/// Shows every frame of a sprite in another palette; the first frame that
/// lacks indexes gives the error.
pub fn swap_palette(frames: &Vec<Frame>, new_palette: &Palette) -> (result: Result<
    Vec<Frame>,
    FormatError,
>)
    ensures
        match result {
            Ok(new_frames) => crate::sequence::collect(
                frames@.len(),
                swaps_of(new_palette.colors@, frame_views(frames@)),
            ) == Ok::<Seq<FrameView>, FormatError>(frame_views(new_frames@)),
            Err(error) => crate::sequence::collect(
                frames@.len(),
                swaps_of(new_palette.colors@, frame_views(frames@)),
            ) == Err::<Seq<FrameView>, FormatError>(error),
        },
{
    let ghost swaps = swaps_of(new_palette.colors@, frame_views(frames@));
    let mut new_frames: Vec<Frame> = Vec::new();
    let count = frames.len();
    let mut i: usize = 0;
    assert(frame_views(new_frames@) =~= Seq::<FrameView>::empty());
    while i < count
        invariant
            0 <= i <= count,
            count == frames@.len(),
            swaps == swaps_of(new_palette.colors@, frame_views(frames@)),
            crate::sequence::collect(i as nat, swaps) == Ok::<Seq<FrameView>, FormatError>(
                frame_views(new_frames@),
            ),
        decreases count - i,
    {
        let frame = &frames[i];
        proof {
            assert(frame@ == frame_views(frames@)[i as int]);
        }
        match swap_palette_for_frame(frame, new_palette) {
            Ok(new_frame) => {
                let ghost before = frame_views(new_frames@);
                proof {
                    assert(swaps(i as int) == Ok::<FrameView, FormatError>(new_frame@));
                }
                new_frames.push(new_frame);
                proof {
                    assert(frame_views(new_frames@) =~= before.push(new_frame@));
                }
            },
            Err(error) => {
                proof {
                    assert(swaps(i as int) == Err::<FrameView, FormatError>(error));
                    assert(crate::sequence::collect((i + 1) as nat, swaps) == Err::<
                        Seq<FrameView>,
                        FormatError,
                    >(error));
                    crate::sequence::lemma_collect_failed((i + 1) as nat, count as nat, swaps);
                }
                return Err(error);
            },
        }
        i += 1;
    }
    Ok(new_frames)
}

/// Brings every frame of a sprite into another palette.
pub fn translate_colors(frames: &Vec<Frame>, new_palette: &Palette) -> (result: Result<
    Vec<Frame>,
    FormatError,
>)
    ensures
        result is Ok,
        frame_views(result->Ok_0@) == Seq::new(
            frames@.len(),
            |index: int| translated(new_palette.colors@, frame_views(frames@)[index]),
        ),
{
    let mut new_frames: Vec<Frame> = Vec::new();
    let count = frames.len();
    let mut i: usize = 0;
    while i < count
        invariant
            0 <= i <= count,
            count == frames@.len(),
            new_frames@.len() == i,
            forall|j: int|
                0 <= j < i ==> (#[trigger] new_frames@[j])@ == translated(
                    new_palette.colors@,
                    frame_views(frames@)[j],
                ),
        decreases count - i,
    {
        let frame = &frames[i];
        proof {
            assert(frame@ == frame_views(frames@)[i as int]);
        }
        match translate_colors_for_frame(frame, new_palette) {
            Ok(new_frame) => {
                new_frames.push(new_frame);
            },
            Err(error) => {
                return Err(error);
            },
        }
        i += 1;
    }
    proof {
        assert(frame_views(new_frames@) =~= Seq::new(
            frames@.len(),
            |index: int| translated(new_palette.colors@, frame_views(frames@)[index]),
        ));
    }
    Ok(new_frames)
}

} // verus!
