//! The image model: a tagged image with its pixel buffer, validated at
//! construction and immutable in format and dimensions thereafter.

use vstd::prelude::*;

verus! {

/// The three anymap sub-formats.
#[derive(Clone, Copy, PartialEq, Eq, Structural, Debug)]
pub enum AnymapFormat {
    /// One sample per pixel, each 0 or 1.
    Bitmap,
    /// One sample per pixel, up to `saturation`.
    Greymap,
    /// Three samples (red, green, blue) per pixel, up to `saturation`.
    Pixmap,
}

/// Everything that can go wrong while constructing, decoding, or
/// transforming an image. Failures that stem from the operating system
/// (an unreadable or unwritable file) are reported by the I/O layer, not
/// by this library.
#[derive(Clone, Copy, PartialEq, Eq, Structural, Debug)]
pub enum AnymapError {
    /// The buffer length does not match the given dimensions.
    DimensionMismatch,
    /// A bitmap sample other than 0 or 1.
    InvalidSample,
    /// A saturation above 255.
    SaturationOutOfRange,
    /// The input does not begin with a recognized magic number.
    UnknownMagicNumber,
    /// A header value is missing or is not a number.
    MalformedHeader,
    /// An ASCII pixel token is not an unsigned byte value.
    MalformedPixelData,
    /// The filter's buffer is longer than the image's.
    FilterTooLarge,
    /// The filter's format differs from the image's.
    FormatMismatch,
    /// The operation does not apply to this format.
    UnsupportedFormat,
}

/// The mathematical model of an image: what the contracts speak of.
#[verifier::ext_equal]
pub struct ImageView {
    pub buffer: Seq<u8>,
    pub format: AnymapFormat,
    pub saturation: nat,
    pub height: nat,
    pub width: nat,
}

impl ImageView {
    /// The invariant every image holds: buffer length matches the pixel
    /// grid (one sample per pixel, or three for a pixmap), bitmap samples
    /// are 0 or 1 with saturation fixed at 0, and saturation fits in a
    /// byte. Dimensions fit the machine's word so that headers can be
    /// rendered and re-read.
    pub open spec fn inv(self) -> bool {
        &&& self.height <= usize::MAX
        &&& self.width <= usize::MAX
        &&& match self.format {
            AnymapFormat::Bitmap => {
                &&& self.buffer.len() == self.height * self.width
                &&& forall|i: int| 0 <= i < self.buffer.len() ==> self.buffer[i] <= 1
                &&& self.saturation == 0
            },
            AnymapFormat::Greymap => {
                &&& self.buffer.len() == self.height * self.width
                &&& self.saturation <= 255
            },
            AnymapFormat::Pixmap => {
                &&& self.buffer.len() == 3 * self.height * self.width
                &&& self.saturation <= 255
            },
        }
    }

    /// Samples per pixel: three for a pixmap, one otherwise.
    pub open spec fn samples_per_pixel(self) -> nat {
        if self.format is Pixmap {
            3
        } else {
            1
        }
    }
}

/// An image in one of the anymap formats. Created only by the validating
/// constructors or by a successful decode; the pixel buffer may be mutated
/// in place by the transforms, but format and dimensions never change.
#[derive(Debug, Clone)]
pub struct AnymapImage {
    pub(crate) buffer: Vec<u8>,
    pub(crate) format: AnymapFormat,
    pub(crate) saturation: usize,
    pub(crate) height: usize,
    pub(crate) width: usize,
}

impl View for AnymapImage {
    type V = ImageView;

    closed spec fn view(&self) -> ImageView {
        ImageView {
            buffer: self.buffer@,
            format: self.format,
            saturation: self.saturation as nat,
            height: self.height as nat,
            width: self.width as nat,
        }
    }
}

/// Lets the sibling modules, which implement the codec and the transforms
/// on the raw fields, relate an image to its view.
pub(crate) broadcast proof fn lemma_anymap_view(img: AnymapImage)
    ensures
        (#[trigger] img@) == (ImageView {
            buffer: img.buffer@,
            format: img.format,
            saturation: img.saturation as nat,
            height: img.height as nat,
            width: img.width as nat,
        }),
{
}

/// What constructing a bitmap from the given pieces yields: the dimension
/// check comes first, then the sample check; success gives a bitmap with
/// saturation 0.
pub open spec fn spec_make_pbm(buffer: Seq<u8>, height: nat, width: nat) -> Result<
    ImageView,
    AnymapError,
> {
    if buffer.len() != height * width {
        Err(AnymapError::DimensionMismatch)
    } else if exists|i: int| 0 <= i < buffer.len() && buffer[i] > 1 {
        Err(AnymapError::InvalidSample)
    } else {
        Ok(
            ImageView {
                buffer,
                format: AnymapFormat::Bitmap,
                saturation: 0,
                height,
                width,
            },
        )
    }
}

/// What constructing a greymap yields: the dimension check comes first,
/// then the saturation bound.
pub open spec fn spec_make_pgm(
    buffer: Seq<u8>,
    saturation: nat,
    height: nat,
    width: nat,
) -> Result<ImageView, AnymapError> {
    if buffer.len() != height * width {
        Err(AnymapError::DimensionMismatch)
    } else if saturation > 255 {
        Err(AnymapError::SaturationOutOfRange)
    } else {
        Ok(
            ImageView {
                buffer,
                format: AnymapFormat::Greymap,
                saturation,
                height,
                width,
            },
        )
    }
}

/// What constructing a pixmap yields: as for a greymap, but with three
/// samples per pixel.
pub open spec fn spec_make_ppm(
    buffer: Seq<u8>,
    saturation: nat,
    height: nat,
    width: nat,
) -> Result<ImageView, AnymapError> {
    if buffer.len() != 3 * height * width {
        Err(AnymapError::DimensionMismatch)
    } else if saturation > 255 {
        Err(AnymapError::SaturationOutOfRange)
    } else {
        Ok(
            ImageView {
                buffer,
                format: AnymapFormat::Pixmap,
                saturation,
                height,
                width,
            },
        )
    }
}

/// A buffer that fits the pixel grid and holds only samples 0 and 1
/// always constructs a bitmap, and the constructed image carries exactly
/// the given dimensions — what `pbm` promises, combined with what
/// `dimensions` then reports.
pub proof fn lemma_bitmap_construction(buffer: Seq<u8>, height: nat, width: nat)
    requires
        buffer.len() == height * width,
        forall|i: int| 0 <= i < buffer.len() ==> #[trigger] buffer[i] <= 1,
    ensures
        spec_make_pbm(buffer, height, width) is Ok,
        spec_make_pbm(buffer, height, width).unwrap().height == height,
        spec_make_pbm(buffer, height, width).unwrap().width == width,
        spec_make_pbm(buffer, height, width).unwrap().buffer == buffer,
{
    assert(!(exists|i: int| 0 <= i < buffer.len() && buffer[i] > 1));
}

/// The view of a construction or decode result, for relating executable
/// results to their specifications.
pub open spec fn view_of_result(r: Result<AnymapImage, AnymapError>) -> Result<
    ImageView,
    AnymapError,
> {
    match r {
        Ok(img) => Ok(img@),
        Err(e) => Err(e),
    }
}

impl AnymapImage {
    /// Constructor for the bitmap format. Succeeds exactly when the buffer
    /// length equals `height * width` and every sample is 0 or 1.
    pub fn pbm(buffer: Vec<u8>, height: usize, width: usize) -> (r: Result<Self, AnymapError>)
        ensures
            view_of_result(r) == spec_make_pbm(buffer@, height as nat, width as nat),
            r matches Ok(img) ==> img@.inv(),
    {
        let n = buffer.len();
        let expected = height.checked_mul(width);
        if expected.is_none() || n != expected.unwrap() {
            return Err(AnymapError::DimensionMismatch);
        }
        let mut i: usize = 0;
        while i < buffer.len()
            invariant
                0 <= i <= buffer.len(),
                buffer@.len() == (height as nat) * (width as nat),
                forall|j: int| 0 <= j < i ==> buffer@[j] <= 1,
            decreases buffer.len() - i,
        {
            if buffer[i] > 1 {
                assert(exists|j: int| 0 <= j < buffer@.len() && buffer@[j] > 1) by {
                    assert(buffer@[i as int] > 1);
                }
                return Err(AnymapError::InvalidSample);
            }
            i += 1;
        }
        Ok(
            AnymapImage {
                buffer,
                format: AnymapFormat::Bitmap,
                saturation: 0,
                height,
                width,
            },
        )
    }

    /// Constructor for the greymap format. Succeeds exactly when the buffer
    /// length equals `height * width` and the saturation is at most 255.
    pub fn pgm(buffer: Vec<u8>, saturation: usize, height: usize, width: usize) -> (r: Result<
        Self,
        AnymapError,
    >)
        ensures
            view_of_result(r) == spec_make_pgm(
                buffer@,
                saturation as nat,
                height as nat,
                width as nat,
            ),
            r matches Ok(img) ==> img@.inv(),
    {
        let n = buffer.len();
        let expected = height.checked_mul(width);
        if expected.is_none() || n != expected.unwrap() {
            return Err(AnymapError::DimensionMismatch);
        }
        if saturation > 255 {
            return Err(AnymapError::SaturationOutOfRange);
        }
        Ok(
            AnymapImage {
                buffer,
                format: AnymapFormat::Greymap,
                saturation,
                height,
                width,
            },
        )
    }

    /// Constructor for the pixmap format. Succeeds exactly when the buffer
    /// length equals `3 * height * width` and the saturation is at most 255.
    pub fn ppm(buffer: Vec<u8>, saturation: usize, height: usize, width: usize) -> (r: Result<
        Self,
        AnymapError,
    >)
        ensures
            view_of_result(r) == spec_make_ppm(
                buffer@,
                saturation as nat,
                height as nat,
                width as nat,
            ),
            r matches Ok(img) ==> img@.inv(),
    {
        let n = buffer.len();
        proof {
            assert(3 * (height as int) * (width as int) == (height as int) * (width as int) * 3)
                by (nonlinear_arith);
        }
        let pixels = height.checked_mul(width);
        if pixels.is_none() {
            return Err(AnymapError::DimensionMismatch);
        }
        let expected = pixels.unwrap().checked_mul(3);
        if expected.is_none() || n != expected.unwrap() {
            return Err(AnymapError::DimensionMismatch);
        }
        if saturation > 255 {
            return Err(AnymapError::SaturationOutOfRange);
        }
        Ok(
            AnymapImage {
                buffer,
                format: AnymapFormat::Pixmap,
                saturation,
                height,
                width,
            },
        )
    }

    /// Returns an independent copy of the pixel buffer.
    pub fn get_buffer(&self) -> (r: Vec<u8>)
        ensures
            r@ == self@.buffer,
    {
        self.buffer.clone()
    }

    /// Returns the pixel grid as a `(height, width)` pair.
    pub fn dimensions(&self) -> (r: (usize, usize))
        ensures
            r.0 as nat == self@.height,
            r.1 as nat == self@.width,
    {
        (self.height, self.width)
    }
}

} // verus!
