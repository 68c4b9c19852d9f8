//! The in-memory sprite: an ordered list of frames with the settings a file
//! carries.

use crate::error::{FormatError, OpenError, OpenErrorView, Truncation};
use crate::format::{
    black_to_transparent, blk, bytes_outcome, c16, dta, keyed_image, m16, photo_album, s16, spr,
    words, PixelFormat,
};
use crate::palette::Palette;
use crate::raster::{
    bmp_image, gif_images, image_views, png_image, read_bmp, read_gif, read_png, ImageView,
    RgbaImage,
};
use crate::buffer::le16;
use crate::sequence::{collect, lemma_collect};
use bytes::Bytes;
use vstd::prelude::*;

verus! {

/// One image of a sprite. `color_indexes` is empty for a true-colour frame;
/// for an indexed frame it holds one palette index per pixel, in the
/// row-major order of the pixels.
pub struct Frame {
    pub image: RgbaImage,
    pub color_indexes: Vec<u8>,
}

/// What a frame is: its image and its palette indexes.
pub struct FrameView {
    pub image: ImageView,
    pub color_indexes: Seq<u8>,
}

impl View for Frame {
    type V = FrameView;

    open spec fn view(&self) -> FrameView {
        FrameView { image: self.image@, color_indexes: self.color_indexes@ }
    }
}

impl FrameView {
    /// The image is well formed and the indexes, where there are any, are
    /// one per pixel.
    pub open spec fn wf(self) -> bool {
        &&& self.image.wf()
        &&& (self.color_indexes.len() == 0 || self.color_indexes.len() == self.image.pixels.len())
    }

    /// Whether the frame carries a palette index for each of its pixels.
    pub open spec fn is_indexed(self) -> bool {
        self.color_indexes.len() == self.image.width * self.image.height
    }
}

impl Clone for Frame {
    fn clone(&self) -> (copy: Frame)
        ensures
            copy@ == self@,
    {
        Frame { image: self.image.clone(), color_indexes: self.color_indexes.clone() }
    }
}

/// A decoded sprite file, or one about to be encoded: the frames in
/// animation or tile order, the 16-bit pixel layout, the size of the
/// background grid (zero when the sprite is no background), and whether the
/// source was a format that can be read but not written.
pub struct SpriteInfo {
    pub frames: Vec<Frame>,
    pub pixel_format: PixelFormat,
    pub cols: u16,
    pub rows: u16,
    pub read_only: bool,
}

/// What a sprite is.
pub struct SpriteView {
    pub frames: Seq<FrameView>,
    pub pixel_format: PixelFormat,
    pub cols: int,
    pub rows: int,
    pub read_only: bool,
}

/// The views of a list of frames, in order.
pub open spec fn frame_views(frames: Seq<Frame>) -> Seq<FrameView> {
    Seq::new(frames.len(), |i: int| frames[i]@)
}

impl View for SpriteInfo {
    type V = SpriteView;

    open spec fn view(&self) -> SpriteView {
        SpriteView {
            frames: frame_views(self.frames@),
            pixel_format: self.pixel_format,
            cols: self.cols as int,
            rows: self.rows as int,
            read_only: self.read_only,
        }
    }
}

/// The view of a decoder's outcome.
pub open spec fn outcome<E>(result: Result<SpriteInfo, E>) -> Result<SpriteView, E> {
    match result {
        Ok(sprite) => Ok(sprite@),
        Err(error) => Err(error),
    }
}

/// The kinds of file that can be opened.
#[derive(Debug, Copy, Clone, PartialEq, Eq, Structural)]
pub enum FileKind {
    Spr,
    S16,
    C16,
    M16,
    Blk,
    Dta,
    PhotoAlbum,
    Png,
    Bmp,
    Gif,
}

/// The lower-case form of a text, as `str::to_lowercase` gives it.
pub uninterp spec fn lowercase(text: Seq<char>) -> Seq<char>;

/// Not verified: `str::to_lowercase`.
#[verifier::external_body]
fn to_lowercase(text: &str) -> (lower: String)
    ensures
        lower@ == lowercase(text@),
{
    text.to_lowercase()
}

/// The kind of file that an extension in lower case names.
pub open spec fn kind_named(extension: Seq<char>) -> Option<FileKind> {
    if extension == "spr"@ {
        Some(FileKind::Spr)
    } else if extension == "s16"@ {
        Some(FileKind::S16)
    } else if extension == "c16"@ {
        Some(FileKind::C16)
    } else if extension == "m16"@ {
        Some(FileKind::M16)
    } else if extension == "n16"@ {
        Some(FileKind::M16)
    } else if extension == "blk"@ {
        Some(FileKind::Blk)
    } else if extension == "dta"@ {
        Some(FileKind::Dta)
    } else if extension == "photo album"@ {
        Some(FileKind::PhotoAlbum)
    } else if extension == "png"@ {
        Some(FileKind::Png)
    } else if extension == "bmp"@ {
        Some(FileKind::Bmp)
    } else if extension == "gif"@ {
        Some(FileKind::Gif)
    } else {
        None
    }
}

fn same_text(text: &String, other: &str) -> (same: bool)
    ensures
        same == (text@ == other@),
{
    *text == other.to_owned()
}

/// The kind of file that an extension names, if it is written in lower case.
pub fn kind_of_name(extension: &str) -> (kind: Option<FileKind>)
    ensures
        kind == kind_named(extension@),
{
    let name = extension.to_owned();
    if same_text(&name, "spr") {
        Some(FileKind::Spr)
    } else if same_text(&name, "s16") {
        Some(FileKind::S16)
    } else if same_text(&name, "c16") {
        Some(FileKind::C16)
    } else if same_text(&name, "m16") {
        Some(FileKind::M16)
    } else if same_text(&name, "n16") {
        Some(FileKind::M16)
    } else if same_text(&name, "blk") {
        Some(FileKind::Blk)
    } else if same_text(&name, "dta") {
        Some(FileKind::Dta)
    } else if same_text(&name, "photo album") {
        Some(FileKind::PhotoAlbum)
    } else if same_text(&name, "png") {
        Some(FileKind::Png)
    } else if same_text(&name, "bmp") {
        Some(FileKind::Bmp)
    } else if same_text(&name, "gif") {
        Some(FileKind::Gif)
    } else {
        None
    }
}

/// The kind of file that an extension names, in whatever case it is written.
pub fn kind_of_extension(extension: &str) -> (kind: Option<FileKind>)
    ensures
        kind == kind_named(lowercase(extension@)),
{
    let lower = to_lowercase(extension);
    kind_of_name(lower.as_str())
}

/// The error of the indexed format when the last of its dialects has failed
/// too: a file that ends too early is reported as one that no dialect reads.
pub open spec fn exhausted(last: FormatError) -> FormatError {
    match last {
        FormatError::FileHeaderTruncated => FormatError::AllDialectsFailed(Truncation::FileHeader),
        FormatError::ImageHeaderTruncated => FormatError::AllDialectsFailed(
            Truncation::ImageHeader,
        ),
        FormatError::ImageDataTruncated => FormatError::AllDialectsFailed(Truncation::ImageData),
        other => other,
    }
}

/// What a file of the indexed format holds: what the first of its five
/// dialects to read it makes of it, tried in the order standard, single
/// width, double width, multi-sprite, prototype. The failures of the first
/// four are dropped; that of the last is reported.
pub open spec fn cascade(bytes: Seq<u8>, colors: Seq<(u8, u8, u8)>) -> Result<
    SpriteView,
    FormatError,
> {
    if spr::decoded(bytes, colors) is Ok {
        spr::decoded(bytes, colors)
    } else if spr::decoded_single_width(bytes, colors) is Ok {
        spr::decoded_single_width(bytes, colors)
    } else if spr::decoded_double_width(bytes, colors) is Ok {
        spr::decoded_double_width(bytes, colors)
    } else if spr::decoded_multi_sprite(bytes, colors) is Ok {
        spr::decoded_multi_sprite(bytes, colors)
    } else {
        match spr::decoded_prototype(bytes, colors) {
            Ok(sprite) => Ok(sprite),
            Err(error) => Err(exhausted(error)),
        }
    }
}

/// A sprite made of images that come without a sprite file: true colour,
/// no grid, not to be written back.
pub open spec fn imported(images: Seq<ImageView>) -> SpriteView {
    SpriteView {
        frames: Seq::new(
            images.len(),
            |i: int| FrameView { image: images[i], color_indexes: Seq::empty() },
        ),
        pixel_format: PixelFormat::Format565,
        cols: 0,
        rows: 0,
        read_only: true,
    }
}

/// The outcome of importing the images that an image file holds. A file
/// that the `image` crate rejects is rejected with the text that the crate
/// gives.
pub open spec fn import_of(images: Result<Seq<ImageView>, Seq<char>>) -> Result<
    SpriteView,
    OpenErrorView,
> {
    match images {
        Ok(images) => Ok(imported(images)),
        Err(text) => Err(OpenErrorView::Image(text)),
    }
}

/// One image as a list, where there is one.
pub open spec fn alone(image: Result<ImageView, Seq<char>>) -> Result<Seq<ImageView>, Seq<char>> {
    match image {
        Ok(image) => Ok(seq![image]),
        Err(text) => Err(text),
    }
}

/// A BMP image as a list: its black pixels are made transparent.
pub open spec fn alone_keyed(image: Result<ImageView, Seq<char>>) -> Result<
    Seq<ImageView>,
    Seq<char>,
> {
    match image {
        Ok(image) => Ok(seq![keyed_image(image)]),
        Err(text) => Err(text),
    }
}

/// The outcome of reading a sprite file, as the outcome of opening it.
pub open spec fn read_of(sprite: Result<SpriteView, FormatError>) -> Result<
    SpriteView,
    OpenErrorView,
> {
    match sprite {
        Ok(sprite) => Ok(sprite),
        Err(error) => Err(OpenErrorView::Format(error)),
    }
}

/// What a file of the given kind holds.
pub open spec fn decoded_as(kind: FileKind, bytes: Seq<u8>, colors: Seq<(u8, u8, u8)>) -> Result<
    SpriteView,
    OpenErrorView,
> {
    match kind {
        FileKind::Spr => read_of(cascade(bytes, colors)),
        FileKind::S16 => read_of(words::decoded(bytes, crate::buffer::ByteOrder::Little)),
        FileKind::C16 => read_of(c16::decoded(bytes)),
        FileKind::M16 => read_of(words::decoded(bytes, crate::buffer::ByteOrder::Big)),
        FileKind::Blk => read_of(blk::decoded(bytes)),
        FileKind::Dta => read_of(dta::decoded(bytes)),
        FileKind::PhotoAlbum => read_of(photo_album::decoded(bytes, colors)),
        FileKind::Png => import_of(alone(png_image(bytes))),
        FileKind::Bmp => import_of(alone_keyed(bmp_image(bytes))),
        FileKind::Gif => import_of(gif_images(bytes)),
    }
}

/// What a file with the given extension, in lower case, holds.
pub open spec fn file_decoded(
    extension: Option<Seq<char>>,
    bytes: Seq<u8>,
    colors: Seq<(u8, u8, u8)>,
) -> Result<SpriteView, OpenErrorView> {
    match extension {
        None => Err(OpenErrorView::Format(FormatError::InvalidExtension)),
        Some(extension) => match kind_named(extension) {
            None => Err(OpenErrorView::Format(FormatError::InvalidExtension)),
            Some(kind) => decoded_as(kind, bytes, colors),
        },
    }
}

/// What came of opening a file: the view of the sprite, or of the error.
pub open spec fn opening(result: Result<SpriteInfo, OpenError>) -> Result<
    SpriteView,
    OpenErrorView,
> {
    match result {
        Ok(sprite) => Ok(sprite@),
        Err(error) => Err(error@),
    }
}

fn exhaust(last: FormatError) -> (error: FormatError)
    ensures
        error == exhausted(last),
{
    match last {
        FormatError::FileHeaderTruncated => FormatError::AllDialectsFailed(Truncation::FileHeader),
        FormatError::ImageHeaderTruncated => FormatError::AllDialectsFailed(
            Truncation::ImageHeader,
        ),
        FormatError::ImageDataTruncated => FormatError::AllDialectsFailed(Truncation::ImageData),
        other => other,
    }
}

/// Reads a file of the indexed format by trying its dialects in turn.
pub fn decode_spr(contents: &[u8], palette: &Palette) -> (result: Result<SpriteInfo, FormatError>)
    ensures
        outcome(result) == cascade(contents@, palette.colors@),
{
    match spr::decode(contents, palette) {
        Ok(result) => Ok(result),
        Err(_) => match spr::decode_single_width(contents, palette) {
            Ok(result) => Ok(result),
            Err(_) => match spr::decode_double_width(contents, palette) {
                Ok(result) => Ok(result),
                Err(_) => match spr::decode_multi_sprite(contents, palette) {
                    Ok(result) => Ok(result),
                    Err(_) => match spr::decode_prototype(contents, palette) {
                        Ok(result) => Ok(result),
                        Err(error) => Err(exhaust(error)),
                    },
                },
            },
        },
    }
}

/// The sprite of images that come without a sprite file.
pub fn import_images(images: Vec<RgbaImage>) -> (sprite: SpriteInfo)
    ensures
        sprite@ == imported(image_views(images@)),
{
    let ghost views = image_views(images@);
    let mut frames: Vec<Frame> = Vec::new();
    let mut images = images;
    let count = images.len();
    let mut i: usize = 0;
    while i < count
        invariant
            0 <= i <= count,
            count == views.len(),
            images@.len() == count - i,
            forall|j: int| 0 <= j < images@.len() ==> (#[trigger] images@[j])@ == views[i + j],
            frames@.len() == i,
            forall|j: int|
                0 <= j < i ==> (#[trigger] frames@[j])@ == (FrameView {
                    image: views[j],
                    color_indexes: Seq::empty(),
                }),
        decreases count - i,
    {
        let image = images.remove(0);
        frames.push(Frame { image, color_indexes: Vec::new() });
        i += 1;
    }
    let sprite = SpriteInfo {
        frames,
        pixel_format: PixelFormat::Format565,
        cols: 0,
        rows: 0,
        read_only: true,
    };
    proof {
        assert(sprite@.frames =~= imported(views).frames);
    }
    sprite
}

/// Hands on what a decoder of a sprite format returned.
fn read_as(read: Result<SpriteInfo, FormatError>) -> (result: Result<SpriteInfo, OpenError>)
    ensures
        opening(result) == read_of(outcome(read)),
{
    match read {
        Ok(sprite) => Ok(sprite),
        Err(error) => Err(OpenError::Format(error)),
    }
}

/// Reads a file of the given kind.
pub fn decode_as(kind: FileKind, bytes: &[u8], palette: &Palette) -> (result: Result<
    SpriteInfo,
    OpenError,
>)
    ensures
        opening(result) == decoded_as(kind, bytes@, palette.colors@),
{
    match kind {
        FileKind::Spr => read_as(decode_spr(bytes, palette)),
        FileKind::S16 => read_as(s16::decode(bytes)),
        FileKind::C16 => read_as(c16::decode(bytes)),
        FileKind::M16 => read_as(m16::decode(bytes)),
        FileKind::Blk => read_as(blk::decode(bytes)),
        FileKind::Dta => read_as(dta::decode(bytes)),
        FileKind::PhotoAlbum => read_as(photo_album::decode(bytes, palette)),
        FileKind::Png => match read_png(bytes) {
            Ok(image) => {
                let mut images: Vec<RgbaImage> = Vec::new();
                images.push(image);
                proof {
                    assert(image_views(images@) =~= seq![image@]);
                }
                Ok(import_images(images))
            },
            Err(text) => Err(OpenError::Image(text)),
        },
        FileKind::Bmp => match read_bmp(bytes) {
            Ok(image) => {
                let image = black_to_transparent(image);
                let mut images: Vec<RgbaImage> = Vec::new();
                images.push(image);
                proof {
                    assert(image_views(images@) =~= seq![image@]);
                }
                Ok(import_images(images))
            },
            Err(text) => Err(OpenError::Image(text)),
        },
        FileKind::Gif => match read_gif(bytes) {
            Ok(images) => Ok(import_images(images)),
            Err(text) => Err(OpenError::Image(text)),
        },
    }
}

/// Reads a file by the extension of its name: the extension, whatever its
/// case, selects the format. A name without extension, or with one that
/// names no format, is rejected.
pub fn get_sprite_info(extension: Option<&str>, bytes: &[u8], palette: &Palette) -> (result: Result<
    SpriteInfo,
    OpenError,
>)
    ensures
        opening(result) == file_decoded(
            match extension {
                Some(extension) => Some(lowercase(extension@)),
                None => None,
            },
            bytes@,
            palette.colors@,
        ),
{
    let extension_str = match extension {
        Some(extension_str) => extension_str,
        None => {
            return Err(OpenError::Format(FormatError::InvalidExtension));
        },
    };
    match kind_of_extension(extension_str) {
        Some(kind) => decode_as(kind, bytes, palette),
        None => Err(OpenError::Format(FormatError::InvalidExtension)),
    }
}

/// The file that a sprite is saved as under the given extension. Only the
/// formats that can be written have one, and only under their extension in
/// lower case.
pub open spec fn file_encoded(
    extension: Seq<char>,
    sprite: SpriteView,
    colors: Seq<(u8, u8, u8)>,
) -> Result<Seq<u8>, FormatError> {
    if extension == "spr"@ {
        spr::encoded(sprite, colors)
    } else if extension == "s16"@ {
        words::encoded(sprite, crate::buffer::ByteOrder::Little)
    } else if extension == "c16"@ {
        c16::encoded(sprite)
    } else if extension == "m16"@ || extension == "n16"@ {
        words::encoded(sprite, crate::buffer::ByteOrder::Big)
    } else if extension == "blk"@ {
        blk::encoded(sprite)
    } else {
        Err(FormatError::InvalidExtension)
    }
}

/// Writes a sprite in the format that the extension of a file name selects.
pub fn save_file_to_path(extension: &str, sprite_info: SpriteInfo, palette: &Palette) -> (result: Result<
    Bytes,
    FormatError,
>)
    ensures
        bytes_outcome(result) == file_encoded(extension@, sprite_info@, palette.colors@),
{
    let name = extension.to_owned();
    if same_text(&name, "spr") {
        spr::encode(sprite_info, palette)
    } else if same_text(&name, "s16") {
        s16::encode(sprite_info)
    } else if same_text(&name, "c16") {
        c16::encode(sprite_info)
    } else if same_text(&name, "m16") || same_text(&name, "n16") {
        m16::encode(sprite_info)
    } else if same_text(&name, "blk") {
        blk::encode(sprite_info)
    } else {
        Err(FormatError::InvalidExtension)
    }
}

/// The dialects are tried in a fixed order: a file that the standard and the
/// single-width dialect reject and the double-width dialect reads is read as
/// double width, whatever the later dialects would make of it.
pub proof fn lemma_cascade_reaches_double_width(bytes: Seq<u8>, colors: Seq<(u8, u8, u8)>)
    requires
        spr::decoded(bytes, colors) is Err,
        spr::decoded_single_width(bytes, colors) is Err,
        spr::decoded_double_width(bytes, colors) is Ok,
    ensures
        cascade(bytes, colors) == spr::decoded_double_width(bytes, colors),
        cascade(bytes, colors)->Ok_0.read_only,
{
    let frames = collect(le16(bytes) as nat, spr::stream_frames(bytes, colors, true));
    assert(spr::decoded_double_width(bytes, colors) == spr::sprite_of(frames, true));
}

/// A file of the indexed format that is rejected is rejected because the
/// last dialect ran out of data: no other failure survives the cascade.
pub proof fn lemma_cascade_failure(bytes: Seq<u8>, colors: Seq<(u8, u8, u8)>)
    ensures
        cascade(bytes, colors) is Err ==> cascade(bytes, colors)->Err_0 is AllDialectsFailed,
{
    if cascade(bytes, colors) is Err {
        let frames_of = spr::table_frames(bytes, colors, true);
        let count = le16(bytes) as nat;
        if bytes.len() >= 2 && !spr::table_cut(bytes, true) {
            lemma_collect(count, frames_of);
            let error = collect(count, frames_of)->Err_0;
            let index = choose|i: int|
                0 <= i < count && #[trigger] frames_of(i) == Err::<FrameView, FormatError>(error);
            assert(frames_of(index) == spr::table_frame(bytes, colors, true, index));
            let width = spr::table_width(bytes, true, index);
            let height = spr::table_height(bytes, true, index);
            assert(4 * width * height <= 4 * 255 * 255) by (nonlinear_arith)
                requires
                    0 <= width <= 255,
                    0 <= height <= 255,
            ;
        }
    }
}

/// The document: the open file and what is being edited.
pub struct FileState {
    pub file_title: String,
    pub file_path: Option<String>,
    pub file_is_open: bool,
    pub file_is_modified: bool,
    pub frames: Vec<Frame>,
    pub palette: Palette,
    pub pixel_format: PixelFormat,
    pub cols: usize,
    pub rows: usize,
    pub read_only: bool,
}

impl FileState {
    /// The document before any file is opened: no frames, the game's own
    /// palette, the 5-6-5 layout.
    pub fn new() -> (state: FileState)
        ensures
            state.file_title@.len() == 0,
            state.file_path is None,
            !state.file_is_open,
            !state.file_is_modified,
            state.frames@.len() == 0,
            state.palette.file_name is None,
            state.palette.colors == crate::palette::ORIGINAL_COLORS,
            state.pixel_format == PixelFormat::Format565,
            state.cols == 0,
            state.rows == 0,
            !state.read_only,
    {
        FileState {
            file_title: String::new(),
            file_path: None,
            file_is_open: false,
            file_is_modified: false,
            frames: Vec::new(),
            palette: crate::palette::original_palette(),
            pixel_format: PixelFormat::Format565,
            cols: 0,
            rows: 0,
            read_only: false,
        }
    }
}

/// Sets the grid of the background.
pub fn set_bg_size(file_state: &mut FileState, cols: usize, rows: usize)
    ensures
        final(file_state).cols == cols,
        final(file_state).rows == rows,
        final(file_state).frames == old(file_state).frames,
        final(file_state).pixel_format == old(file_state).pixel_format,
{
    file_state.cols = cols;
    file_state.rows = rows;
}

/// Sets the pixel layout that the document is saved in.
pub fn set_pixel_format(file_state: &mut FileState, new_pixel_format: PixelFormat)
    ensures
        final(file_state).pixel_format == new_pixel_format,
        final(file_state).frames == old(file_state).frames,
        final(file_state).cols == old(file_state).cols,
        final(file_state).rows == old(file_state).rows,
{
    file_state.pixel_format = new_pixel_format;
}

/// The grid of the two background files that the games keep in sprite
/// formats, by their names in lower case.
pub open spec fn known_background(file_name: Seq<char>) -> Option<(usize, usize)> {
    if file_name == "back.spr"@ {
        Some((58usize, 8usize))
    } else if file_name == "back.s16"@ {
        Some((58usize, 16usize))
    } else {
        None
    }
}

/// The grid of a background file that is known by its name.
pub fn background_grid(file_name: &str) -> (grid: Option<(usize, usize)>)
    ensures
        grid == known_background(lowercase(file_name@)),
{
    let lower = to_lowercase(file_name);
    if same_text(&lower, "back.spr") {
        Some((58, 8))
    } else if same_text(&lower, "back.s16") {
        Some((58, 16))
    } else {
        None
    }
}

/// Whether a file is shown as a background: a tiled background by its
/// extension, or one of the two known background files.
pub fn is_background(extension: Option<&str>, file_name: &str) -> (background: bool)
    ensures
        background == ((match extension {
            Some(extension) => lowercase(extension@) == "blk"@,
            None => false,
        }) || known_background(lowercase(file_name@)) is Some),
{
    let by_extension = match extension {
        Some(extension) => {
            let lower = to_lowercase(extension);
            same_text(&lower, "blk")
        },
        None => false,
    };
    by_extension || background_grid(file_name).is_some()
}

/// What is done with files that are dropped on the window.
#[derive(Debug, Copy, Clone, PartialEq, Eq, Structural)]
pub enum DropAction {
    /// The frames of every file are put into the open document.
    Insert,
    /// The one file is opened.
    Open,
    /// Nothing was dropped.
    Ignore,
}

/// Files dropped on a document that has frames, and several files dropped
/// at once, are put in; one file dropped on an empty document is opened.
pub fn drop_files(file_is_open: bool, frame_count: usize, path_count: usize) -> (action: DropAction)
    ensures
        action == if (file_is_open && frame_count > 0) || path_count > 1 {
            DropAction::Insert
        } else if path_count == 1 {
            DropAction::Open
        } else {
            DropAction::Ignore
        },
{
    if (file_is_open && frame_count > 0) || path_count > 1 {
        DropAction::Insert
    } else if path_count == 1 {
        DropAction::Open
    } else {
        DropAction::Ignore
    }
}

/// Why a document that cannot be written is not saved, by the name of its
/// file.
pub open spec fn refusal_text(file_name: Seq<char>) -> Seq<char> {
    if file_name == ".png"@ || file_name == ".PNG"@ {
        "Use Export PNG or Export Spritesheet instead."@
    } else if file_name == ".gif"@ || file_name == ".GIF"@ {
        "Use Export GIF instead."@
    } else if file_name == ".spr"@ || file_name == ".SPR"@ {
        "File is in a SPR format Spritist can read but not write. Use Save As to save a copy in the standard SPR format."@
    } else {
        "File is read-only. Use Save As or Export instead."@
    }
}

/// The message shown when a document that cannot be written is to be saved.
pub fn save_refusal(file_name: &str) -> (message: String)
    ensures
        message@ == refusal_text(file_name@),
{
    let name = file_name.to_owned();
    if same_text(&name, ".png") || same_text(&name, ".PNG") {
        "Use Export PNG or Export Spritesheet instead.".to_string()
    } else if same_text(&name, ".gif") || same_text(&name, ".GIF") {
        "Use Export GIF instead.".to_string()
    } else if same_text(&name, ".spr") || same_text(&name, ".SPR") {
        "File is in a SPR format Spritist can read but not write. Use Save As to save a copy in the standard SPR format.".to_string()
    } else {
        "File is read-only. Use Save As or Export instead.".to_string()
    }
}

} // verus!
