//! Why a sprite file, a palette or a frame list was rejected.

use vstd::prelude::*;

verus! {

/// A rule of a format that the data breaks, other than being cut short.
#[derive(Clone, Copy, Debug, PartialEq, Eq, Structural)]
pub enum Violation {
    /// A frame of a tiled background is not 128 by 128 pixels.
    WrongTileSize,
    /// A tiled background does not hold columns times rows frames.
    FrameCountMismatch,
    /// A palette source holds fewer than 256 colours.
    InvalidPaletteSize,
    /// A spritesheet cannot be cut into the grid asked for.
    InvalidSpritesheetGrid,
    /// A glyph file has none of the four sizes that the format knows.
    InvalidCharsetSize,
    /// A double-width image declares more than 65535 rows.
    InvalidHeight,
    /// A run of a run-length scanline ends beyond the width of the image.
    RunPastScanline,
    /// A frame carries no colour index for one of its pixels.
    MissingColorIndexes,
    /// A count, a size or an offset does not fit the header field that
    /// stores it, or an image or a file is larger than one allocation can be.
    TooLarge,
    /// A glyph is declared wider than the cell that holds its pixels.
    GlyphTooWide,
    /// A colour is not written as six hexadecimal digits.
    InvalidHexColor,
}

/// Where the data of a file ended too early.
#[derive(Clone, Copy, Debug, PartialEq, Eq, Structural)]
pub enum Truncation {
    FileHeader,
    ImageHeader,
    ImageData,
}

/// The reason a decoder or an encoder gave up. None of them is fatal: the
/// caller reports the message and drops the file or the operation.
#[derive(Clone, Copy, Debug, PartialEq, Eq, Structural)]
pub enum FormatError {
    /// The data ends inside the file header.
    FileHeaderTruncated,
    /// The data ends inside an image header.
    ImageHeaderTruncated,
    /// The data ends inside the pixels of an image.
    ImageDataTruncated,
    /// The file name has no extension that names a known format.
    InvalidExtension,
    /// The data is complete but breaks a rule of its format.
    StructuralViolation(Violation),
    /// None of the five dialects of the indexed format reads the data; the
    /// payload says where the last one tried, the prototype dialect, ran out.
    AllDialectsFailed(Truncation),
}

impl Truncation {
    /// The same failure, as an error of its own.
    pub open spec fn as_error(self) -> FormatError {
        match self {
            Truncation::FileHeader => FormatError::FileHeaderTruncated,
            Truncation::ImageHeader => FormatError::ImageHeaderTruncated,
            Truncation::ImageData => FormatError::ImageDataTruncated,
        }
    }

    pub fn to_error(self) -> (error: FormatError)
        ensures
            error == self.as_error(),
    {
        match self {
            Truncation::FileHeader => FormatError::FileHeaderTruncated,
            Truncation::ImageHeader => FormatError::ImageHeaderTruncated,
            Truncation::ImageData => FormatError::ImageDataTruncated,
        }
    }

    /// The text shown to the user for data that ends here.
    pub open spec fn text(self) -> Seq<char> {
        match self {
            Truncation::FileHeader => "Invalid data. File ends in the middle of file header."@,
            Truncation::ImageHeader => "Invalid data. File ends in the middle of an image header"@,
            Truncation::ImageData => "Invalid data. File ends in the middle of an image"@,
        }
    }

    pub fn message(self) -> (message: String)
        ensures
            message@ == self.text(),
    {
        match self {
            Truncation::FileHeader =>
                "Invalid data. File ends in the middle of file header.".to_string(),
            Truncation::ImageHeader =>
                "Invalid data. File ends in the middle of an image header".to_string(),
            Truncation::ImageData => "Invalid data. File ends in the middle of an image".to_string(),
        }
    }
}

impl Violation {
    /// The text shown to the user for this violation.
    pub open spec fn text(self) -> Seq<char> {
        match self {
            Violation::WrongTileSize => "All frames in a BLK file must be 128 x 128 px."@,
            Violation::FrameCountMismatch =>
                "Incorrect number of frames for a BLK file. Must equal COLUMNS x ROWS (see View > View As Background)."@,
            Violation::InvalidPaletteSize => "Invalid palette data. File is too short."@,
            Violation::InvalidSpritesheetGrid => "Invalid spritesheet dimensions"@,
            Violation::InvalidCharsetSize => "Unable to open charset file. Invalid file size."@,
            Violation::InvalidHeight => "Invalid height"@,
            Violation::RunPastScanline => "Invalid data. A run of pixels is longer than its line."@,
            Violation::MissingColorIndexes =>
                "Unable to swap palettes because not all the frames have indexed color (SPR format). Try converting to palette instead."@,
            Violation::TooLarge => "Too many frames or pixels for this file format."@,
            Violation::GlyphTooWide => "Invalid data. A character is wider than its cell."@,
            Violation::InvalidHexColor => "Hex color must be 6 characters long."@,
        }
    }

    pub fn message(self) -> (message: String)
        ensures
            message@ == self.text(),
    {
        match self {
            Violation::WrongTileSize => "All frames in a BLK file must be 128 x 128 px.".to_string(),
            Violation::FrameCountMismatch =>
                "Incorrect number of frames for a BLK file. Must equal COLUMNS x ROWS (see View > View As Background).".to_string(),
            Violation::InvalidPaletteSize => "Invalid palette data. File is too short.".to_string(),
            Violation::InvalidSpritesheetGrid => "Invalid spritesheet dimensions".to_string(),
            Violation::InvalidCharsetSize =>
                "Unable to open charset file. Invalid file size.".to_string(),
            Violation::InvalidHeight => "Invalid height".to_string(),
            Violation::RunPastScanline =>
                "Invalid data. A run of pixels is longer than its line.".to_string(),
            Violation::MissingColorIndexes =>
                "Unable to swap palettes because not all the frames have indexed color (SPR format). Try converting to palette instead.".to_string(),
            Violation::TooLarge => "Too many frames or pixels for this file format.".to_string(),
            Violation::GlyphTooWide =>
                "Invalid data. A character is wider than its cell.".to_string(),
            Violation::InvalidHexColor => "Hex color must be 6 characters long.".to_string(),
        }
    }
}

impl FormatError {
    /// The text shown to the user for this error.
    pub open spec fn text(self) -> Seq<char> {
        match self {
            FormatError::FileHeaderTruncated => Truncation::FileHeader.text(),
            FormatError::ImageHeaderTruncated => Truncation::ImageHeader.text(),
            FormatError::ImageDataTruncated => Truncation::ImageData.text(),
            FormatError::InvalidExtension =>
                "File does not have a valid file extension (\".spr\", \".s16\", \".c16\", \".blk\", etc.)"@,
            FormatError::StructuralViolation(violation) => violation.text(),
            FormatError::AllDialectsFailed(last) => last.text(),
        }
    }

    pub fn message(self) -> (message: String)
        ensures
            message@ == self.text(),
    {
        match self {
            FormatError::FileHeaderTruncated => Truncation::FileHeader.message(),
            FormatError::ImageHeaderTruncated => Truncation::ImageHeader.message(),
            FormatError::ImageDataTruncated => Truncation::ImageData.message(),
            FormatError::InvalidExtension =>
                "File does not have a valid file extension (\".spr\", \".s16\", \".c16\", \".blk\", etc.)".to_string(),
            FormatError::StructuralViolation(violation) => violation.message(),
            FormatError::AllDialectsFailed(last) => last.message(),
        }
    }
}

/// The reason a file was not opened.
#[derive(Clone, Debug, PartialEq, Eq)]
pub enum OpenError {
    /// The file is not of a known format, or breaks the rules of its format.
    Format(FormatError),
    /// The file is named as a PNG, BMP or GIF image and the `image` crate
    /// does not read it; the text is the message of that crate.
    Image(String),
}

/// What an `OpenError` is: the text of an image error as a sequence of
/// characters.
pub enum OpenErrorView {
    Format(FormatError),
    Image(Seq<char>),
}

impl View for OpenError {
    type V = OpenErrorView;

    open spec fn view(&self) -> OpenErrorView {
        match self {
            OpenError::Format(error) => OpenErrorView::Format(*error),
            OpenError::Image(text) => OpenErrorView::Image(text@),
        }
    }
}

impl OpenErrorView {
    /// The text shown to the user for this error.
    pub open spec fn text(self) -> Seq<char> {
        match self {
            OpenErrorView::Format(error) => error.text(),
            OpenErrorView::Image(text) => text,
        }
    }
}

impl OpenError {
    pub fn message(&self) -> (message: String)
        ensures
            message@ == self@.text(),
    {
        match self {
            OpenError::Format(error) => error.message(),
            OpenError::Image(text) => text.clone(),
        }
    }
}

} // verus!
