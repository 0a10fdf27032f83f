//! In-place pixel transforms: colour inversion, additive filtering, and
//! greyscale reduction.

use vstd::prelude::*;

use crate::image::AnymapError;
use crate::image::AnymapFormat;
use crate::image::AnymapImage;
use crate::image::ImageView;

verus! {

broadcast use crate::image::lemma_anymap_view;

/// The image with every sample inverted: a bitmap sample is flipped in
/// {0, 1}; any other sample is replaced by its complement in [0, 255].
pub open spec fn spec_invert(v: ImageView) -> ImageView {
    ImageView {
        buffer: Seq::new(
            v.buffer.len(),
            |i: int|
                if v.format is Bitmap {
                    (1 - v.buffer[i]) as u8
                } else {
                    (255 - v.buffer[i]) as u8
                },
        ),
        ..v
    }
}

/// Which filter applications are accepted: the filter's buffer must not be
/// longer than the image's, the formats must match, and bitmaps take no
/// filter; the checks are made in that order.
pub open spec fn spec_filter_check(v: ImageView, f: ImageView) -> Result<(), AnymapError> {
    if v.buffer.len() < f.buffer.len() {
        Err(AnymapError::FilterTooLarge)
    } else if v.format != f.format {
        Err(AnymapError::FormatMismatch)
    } else if v.format is Bitmap {
        Err(AnymapError::UnsupportedFormat)
    } else {
        Ok(())
    }
}

/// The image after an accepted filter application: each sample has the
/// filter's sample at the same index added to it modulo 256; indices past
/// the filter's end add 0.
pub open spec fn spec_add_filter(v: ImageView, f: ImageView) -> ImageView {
    ImageView {
        buffer: Seq::new(
            v.buffer.len(),
            |i: int|
                (((v.buffer[i] as int) + (if i < f.buffer.len() {
                    f.buffer[i] as int
                } else {
                    0
                })) % 256) as u8,
        ),
        ..v
    }
}

/// The mean of the pixmap triple starting at sample index `3 * t`,
/// rounded down.
pub open spec fn spec_grey_mean(buffer: Seq<u8>, t: int) -> u8 {
    (((buffer[3 * t] as int) + (buffer[3 * t + 1] as int) + (buffer[3 * t + 2] as int)) / 3) as u8
}

/// The image after greyscale reduction: a no-op except on a pixmap, where
/// every red-green-blue triple but the final one is replaced by its mean
/// in all three channels. That the final triple is left untouched mirrors
/// the established loop bound of this transform.
pub open spec fn spec_greyscale(v: ImageView) -> ImageView {
    if v.format is Pixmap {
        ImageView {
            buffer: Seq::new(
                v.buffer.len(),
                |i: int|
                    if (i / 3 + 1) * 3 < v.buffer.len() {
                        spec_grey_mean(v.buffer, i / 3)
                    } else {
                        v.buffer[i]
                    },
            ),
            ..v
        }
    } else {
        v
    }
}

/// Inverting twice restores the image exactly: on a bitmap each sample is
/// flipped within {0, 1} and flipped back; on a greymap or pixmap each
/// sample's complement is complemented again.
pub proof fn lemma_invert_involution(v: ImageView)
    requires
        v.inv(),
    ensures
        spec_invert(spec_invert(v)) == v,
{
    assert(spec_invert(spec_invert(v)).buffer =~= v.buffer);
    assert(spec_invert(spec_invert(v)) =~= v);
}

/// Filtering is commutative in content: for two buffers of equal length,
/// adding the second to the first yields the same samples as adding the
/// first to the second. (Only the image the method is called on is
/// mutated; the other operand is consumed unchanged.)
pub proof fn lemma_add_filter_commutes(v: ImageView, f: ImageView)
    requires
        v.buffer.len() == f.buffer.len(),
    ensures
        spec_add_filter(v, f).buffer == spec_add_filter(f, v).buffer,
{
    assert(spec_add_filter(v, f).buffer =~= spec_add_filter(f, v).buffer);
}

impl AnymapImage {
    /// Inverts every sample in place: `1 - s` for a bitmap sample, the
    /// complement `255 - s` otherwise.
    pub fn invert(&mut self)
        requires
            old(self)@.inv(),
        ensures
            final(self)@ == spec_invert(old(self)@),
            final(self)@.inv(),
    {
        let n = self.buffer.len();
        let bitmap = match self.format {
            AnymapFormat::Bitmap => true,
            _ => false,
        };
        let mut out: Vec<u8> = Vec::new();
        let mut i: usize = 0;
        while i < n
            invariant
                *self == *old(self),
                self@.inv(),
                n == self@.buffer.len(),
                bitmap == (self@.format is Bitmap),
                0 <= i <= n,
                out@.len() == i,
                forall|j: int| 0 <= j < i ==> out@[j] == spec_invert(self@).buffer[j],
            decreases n - i,
        {
            if bitmap {
                out.push(1 - self.buffer[i]);
            } else {
                out.push(255 - self.buffer[i]);
            }
            i += 1;
        }
        self.buffer = out;
        assert(self@ =~= spec_invert(old(self)@));
    }

    /// Adds the filter's buffer to this image's buffer sample by sample,
    /// wrapping modulo 256, with indices past the filter's end unchanged.
    /// Rejected applications leave the image untouched.
    pub fn add_filter(&mut self, filter: AnymapImage) -> (r: Result<(), AnymapError>)
        requires
            old(self)@.inv(),
        ensures
            r == spec_filter_check(old(self)@, filter@),
            r is Err ==> *final(self) == *old(self),
            r is Ok ==> final(self)@ == spec_add_filter(old(self)@, filter@),
            final(self)@.inv(),
    {
        if self.buffer.len() < filter.buffer.len() {
            return Err(AnymapError::FilterTooLarge);
        }
        if self.format != filter.format {
            return Err(AnymapError::FormatMismatch);
        }
        let bitmap = match self.format {
            AnymapFormat::Bitmap => true,
            _ => false,
        };
        if bitmap {
            return Err(AnymapError::UnsupportedFormat);
        }
        let n = self.buffer.len();
        let m = filter.buffer.len();
        let mut out: Vec<u8> = Vec::new();
        let mut i: usize = 0;
        while i < n
            invariant
                *self == *old(self),
                n == self@.buffer.len(),
                m == filter@.buffer.len(),
                m <= n,
                0 <= i <= n,
                out@.len() == i,
                forall|j: int| 0 <= j < i ==> out@[j] == spec_add_filter(self@, filter@).buffer[j],
            decreases n - i,
        {
            let extra: u8 = if i < m {
                filter.buffer[i]
            } else {
                0
            };
            let sum: u16 = self.buffer[i] as u16 + extra as u16;
            out.push((sum % 256) as u8);
            i += 1;
        }
        self.buffer = out;
        assert(self@ =~= spec_add_filter(old(self)@, filter@));
        Ok(())
    }

    /// Reduces a pixmap to grey in place, replacing each red-green-blue
    /// triple but the final one by its mean in all three channels; other
    /// formats are left untouched.
    pub fn greyscale(&mut self)
        requires
            old(self)@.inv(),
        ensures
            final(self)@ == spec_greyscale(old(self)@),
            final(self)@.inv(),
    {
        let pixmap = match self.format {
            AnymapFormat::Pixmap => true,
            _ => false,
        };
        if !pixmap {
            return ;
        }
        let n = self.buffer.len();
        let mut out: Vec<u8> = Vec::new();
        let mut i: usize = 0;
        while i < n
            invariant
                *self == *old(self),
                self@.format is Pixmap,
                n == self@.buffer.len(),
                0 <= i <= n,
                out@.len() == i,
                forall|j: int| 0 <= j < i ==> out@[j] == spec_greyscale(self@).buffer[j],
            decreases n - i,
        {
            let t = i / 3;
            proof {
                vstd::arithmetic::div_mod::lemma_fundamental_div_mod(i as int, 3);
            }
            let sample: u8 = if n >= 3 && 3 * t < n - 3 {
                let base = 3 * t;
                let sum: u16 = self.buffer[base] as u16 + self.buffer[base + 1] as u16
                    + self.buffer[base + 2] as u16;
                (sum / 3) as u8
            } else {
                self.buffer[i]
            };
            out.push(sample);
            i += 1;
        }
        self.buffer = out;
        assert(self@ =~= spec_greyscale(old(self)@));
    }
}

} // verus!
