//! Images as callers describe them: dimensions and a source of rows.
use vstd::prelude::*;

use crate::error::liq_error;
use crate::pal::RGBA;
use crate::rows::rows_wf;
use crate::rows::DynamicRows;
use crate::rows::PixelsSource;
use crate::rows::RowCallback;
use crate::rows::RowsView;
use crate::rows::SourceView;
use crate::rows::CONVERTED_PIXEL_SIZE;
use crate::seacow::SeaCow;

verus! {

/// The largest width and the largest height of an image.
pub const MAX_DIMENSION: usize = 0x7fff_ffff;

/// An image: rows of pixels that a quantization reads, and optionally how much each pixel
/// matters.
pub struct Image<'pixels> {
    px: DynamicRows<'pixels, 'static>,
    importance_map: Option<Vec<u8>>,
}

impl<'pixels> View for Image<'pixels> {
    type V = RowsView;

    closed spec fn view(&self) -> RowsView {
        self.px@
    }
}

/// Whether an image of these dimensions can be described: neither dimension is zero or above
/// [`MAX_DIMENSION`], and the converted pixels of the whole image can be addressed.
pub open spec fn valid_image_size(width: int, height: int) -> bool {
    &&& 1 <= width <= MAX_DIMENSION
    &&& 1 <= height <= MAX_DIMENSION
    &&& width * height * CONVERTED_PIXEL_SIZE <= isize::MAX
}

/// Pixels that a buffer must hold for `height` rows of `width` pixels whose starts lie `stride`
/// pixels apart: the last row needs no padding behind it.
pub open spec fn pixels_needed(width: int, height: int, stride: int) -> int {
    stride * (height - 1) + width
}

/// Where the rows of a buffer start when they lie `stride` pixels apart.
pub open spec fn row_starts(height: nat, stride: nat) -> Seq<usize> {
    Seq::new(height, |y: int| (y * stride) as usize)
}

/// The outcome of describing an image over a buffer of `len` pixels. Dimensions that cannot be
/// described and a stride below the width are out of range; after that, a buffer that holds
/// fewer pixels than the rows need is too small.
pub open spec fn describe_result(len: int, width: int, height: int, stride: int) -> liq_error {
    if !valid_image_size(width, height) || stride < width {
        liq_error::LIQ_VALUE_OUT_OF_RANGE
    } else if len < pixels_needed(width, height, stride) {
        liq_error::LIQ_BUFFER_TOO_SMALL
    } else {
        liq_error::LIQ_OK
    }
}

/// What describing an image over a buffer gives: the error of [`describe_result`] where there
/// is one, else an image whose rows start `stride` apart in the buffer and have not been pulled
/// yet. The row starts belong to the image; the buffer does if `owned` says so.
pub open spec fn described(
    r: Result<Image<'_>, liq_error>,
    bitmap: Seq<RGBA>,
    owned: bool,
    width: usize,
    height: usize,
    stride: usize,
) -> bool {
    match r {
        Ok(img) => {
            &&& describe_result(bitmap.len() as int, width as int, height as int, stride as int)
                == liq_error::LIQ_OK
            &&& img.wf()
            &&& img.importance() is None
            &&& img@ == (RowsView {
                width: width as nat,
                height: height as nat,
                cached: None,
                source: SourceView::Pixels {
                    rows: row_starts(height as nat, stride as nat),
                    rows_owned: true,
                    pixels: Some(bitmap),
                    pixels_owned: owned,
                },
            })
        },
        Err(e) => e != liq_error::LIQ_OK && e == describe_result(
            bitmap.len() as int,
            width as int,
            height as int,
            stride as int,
        ),
    }
}

/// Whether the dimensions of an image can be described, see [`valid_image_size`].
pub fn check_image_size(width: usize, height: usize) -> (ok: bool)
    ensures
        ok == valid_image_size(width as int, height as int),
{
    if width == 0 || height == 0 {
        return false;
    }
    if width > MAX_DIMENSION || height > MAX_DIMENSION {
        return false;
    }
    let limit: usize = (isize::MAX as usize) / CONVERTED_PIXEL_SIZE / height;
    proof {
        let m = isize::MAX as int / 16;
        let h = height as int;
        let w = width as int;
        assert(limit == m / h);
        assert(w <= m / h <==> w * h <= m) by (nonlinear_arith)
            requires
                h >= 1,
                w >= 1,
                m >= 0,
        ;
        assert(w * h * 16 == (w * h) * 16) by (nonlinear_arith);
    }
    width <= limit
}

impl<'pixels> Image<'pixels> {
    /// The importance of each pixel in row-major order, from 0 for a pixel that is ignored to
    /// 255 for one that counts in full, where a map has been set.
    pub closed spec fn importance(&self) -> Option<Seq<u8>> {
        match self.importance_map {
            Some(map) => Some(map@),
            None => None,
        }
    }

    /// Validity: the rows are valid, see [`rows_wf`], and an importance map has one value for
    /// each pixel.
    pub open spec fn wf(&self) -> bool {
        &&& rows_wf(self@)
        &&& (self.importance() matches Some(map) ==> map.len() == self@.width * self@.height)
    }

    /// Describes an image over a buffer of `width` by `height` pixels that lie row after row.
    pub fn new(bitmap: &'pixels [RGBA], width: usize, height: usize) -> (r: Result<
        Image<'pixels>,
        liq_error,
    >)
        ensures
            described(r, bitmap@, false, width, height, width),
    {
        Image::new_stride(bitmap, width, height, width)
    }

    /// Describes an image over a buffer in which the rows start `stride` pixels apart. The
    /// buffer stays with the caller.
    pub fn new_stride(
        bitmap: &'pixels [RGBA],
        width: usize,
        height: usize,
        stride: usize,
    ) -> (r: Result<Image<'pixels>, liq_error>)
        ensures
            described(r, bitmap@, false, width, height, stride),
    {
        Image::new_stride_internal(SeaCow::borrowed(bitmap), width, height, stride)
    }

    /// As [`Self::new_stride`], with a copy of the buffer that belongs to the image.
    pub fn new_stride_copy(
        bitmap: &[RGBA],
        width: usize,
        height: usize,
        stride: usize,
    ) -> (r: Result<Image<'static>, liq_error>)
        ensures
            described(r, bitmap@, true, width, height, stride),
    {
        let copy = vstd::slice::slice_to_vec(bitmap);
        Image::new_stride_internal(SeaCow::boxed(copy), width, height, stride)
    }

    /// Describes an image of `width` by `height` pixels whose rows a callback produces, see
    /// [`crate::rows::RowFn`].
    pub fn new_fn(
        callback: Box<dyn RowCallback>,
        width: usize,
        height: usize,
    ) -> (r: Result<Image<'static>, liq_error>)
        ensures
            match r {
                Ok(img) => valid_image_size(width as int, height as int) && img.wf()
                    && img.importance() is None && img@ == (RowsView {
                    width: width as nat,
                    height: height as nat,
                    cached: None,
                    source: PixelsSource::<'static, 'static>::Callback(callback)@,
                }),
                Err(e) => !valid_image_size(width as int, height as int) && e
                    == liq_error::LIQ_VALUE_OUT_OF_RANGE,
            },
    {
        Image::new_internal(PixelsSource::Callback(callback), width, height)
    }

    fn new_stride_internal<'a>(
        pixels: SeaCow<'a, RGBA>,
        width: usize,
        height: usize,
        stride: usize,
    ) -> (r: Result<Image<'a>, liq_error>)
        ensures
            described(r, pixels@, pixels is Owned, width, height, stride),
    {
        if !check_image_size(width, height) || stride < width {
            return Err(liq_error::LIQ_VALUE_OUT_OF_RANGE);
        }
        let len: usize = pixels.len();
        if len / stride < height - 1 {
            proof {
                lemma_last_row_outside(len as int, width as int, height as int, stride as int);
            }
            return Err(liq_error::LIQ_BUFFER_TOO_SMALL);
        }
        proof {
            lemma_last_row_starts_inside(len as int, height as int, stride as int);
        }
        let last_start: usize = stride * (height - 1);
        if len - last_start < width {
            return Err(liq_error::LIQ_BUFFER_TOO_SMALL);
        }
        let mut rows: Vec<usize> = Vec::new();
        let mut y: usize = 0;
        while y < height
            invariant
                y <= height,
                stride >= width,
                pixels_needed(width as int, height as int, stride as int) <= len,
                rows@ == row_starts(y as nat, stride as nat),
            decreases height - y,
        {
            proof {
                lemma_rows_in_buffer(width as int, height as int, stride as int, y as int);
            }
            rows.push(y * stride);
            y += 1;
            assert(rows@ =~= row_starts(y as nat, stride as nat));
        }
        proof {
            assert forall|i: int| 0 <= i < rows@.len() implies (#[trigger] rows@[i]) + width
                <= len by {
                lemma_rows_in_buffer(width as int, height as int, stride as int, i);
            }
        }
        Image::new_internal(
            PixelsSource::Pixels { rows: SeaCow::boxed(rows), pixels: Some(pixels) },
            width,
            height,
        )
    }

    fn new_internal<'a>(
        pixels: PixelsSource<'a, 'static>,
        width: usize,
        height: usize,
    ) -> (r: Result<Image<'a>, liq_error>)
        requires
            valid_image_size(width as int, height as int) ==> crate::rows::source_fits(
                pixels@,
                width as nat,
                height as nat,
            ),
        ensures
            match r {
                Ok(img) => valid_image_size(width as int, height as int) && img.wf()
                    && img.importance() is None && img@ == (RowsView {
                    width: width as nat,
                    height: height as nat,
                    cached: None,
                    source: pixels@,
                }),
                Err(e) => !valid_image_size(width as int, height as int) && e
                    == liq_error::LIQ_VALUE_OUT_OF_RANGE,
            },
    {
        if !check_image_size(width, height) {
            return Err(liq_error::LIQ_VALUE_OUT_OF_RANGE);
        }
        proof {
            let w = width as int;
            let h = height as int;
            assert(w * h <= w * h * 16) by (nonlinear_arith)
                requires
                    w >= 1,
                    h >= 1,
            ;
        }
        Ok(Image { px: DynamicRows::new(width as u32, height as u32, pixels), importance_map: None })
    }

    /// Says how much each pixel matters: one value per pixel in row-major order, from 0 for a
    /// pixel that is ignored to 255 for one that counts in full.
    ///
    /// A map with fewer values than the image has pixels fails with `LIQ_BUFFER_TOO_SMALL`,
    /// one with more values with `LIQ_VALUE_OUT_OF_RANGE`; the image then keeps what it had.
    pub fn set_importance_map(&mut self, map: &[u8]) -> (r: Result<(), liq_error>)
        requires
            old(self).wf(),
        ensures
            final(self).wf(),
            final(self)@ == old(self)@,
            map@.len() == old(self)@.width * old(self)@.height ==> r is Ok
                && final(self).importance() == Some(map@),
            map@.len() < old(self)@.width * old(self)@.height ==> r == Err::<(), liq_error>(
                liq_error::LIQ_BUFFER_TOO_SMALL,
            ) && final(self).importance() == old(self).importance(),
            map@.len() > old(self)@.width * old(self)@.height ==> r == Err::<(), liq_error>(
                liq_error::LIQ_VALUE_OUT_OF_RANGE,
            ) && final(self).importance() == old(self).importance(),
    {
        let width: usize = self.px.width();
        let height: usize = self.px.height();
        proof {
            use_rows_fit(self.px@);
        }
        let pixels: usize = width * height;
        if map.len() < pixels {
            return Err(liq_error::LIQ_BUFFER_TOO_SMALL);
        }
        if map.len() > pixels {
            return Err(liq_error::LIQ_VALUE_OUT_OF_RANGE);
        }
        self.importance_map = Some(vstd::slice::slice_to_vec(map));
        Ok(())
    }

    /// The importance of each pixel, where a map has been set.
    pub fn importance_map(&self) -> (map: Option<&[u8]>)
        ensures
            match map {
                Some(m) => self.importance() == Some(m@),
                None => self.importance() is None,
            },
    {
        match &self.importance_map {
            Some(m) => Some(m.as_slice()),
            None => None,
        }
    }

    /// The rows of the image.
    pub fn rows(&self) -> (px: &DynamicRows<'pixels, 'static>)
        ensures
            px@ == self@,
    {
        &self.px
    }

    /// The rows of the image, for pulling or releasing them.
    pub fn rows_mut(&mut self) -> (px: &mut DynamicRows<'pixels, 'static>)
        ensures
            px@ == old(self)@,
            final(self)@ == final(px)@,
            final(self).importance() == old(self).importance(),
    {
        &mut self.px
    }

    /// Width of the image in pixels
    pub fn width(&self) -> (w: usize)
        ensures
            w == self@.width,
    {
        self.px.width()
    }

    /// Height of the image in pixels
    pub fn height(&self) -> (h: usize)
        ensures
            h == self@.height,
    {
        self.px.height()
    }
}

/// The pixels of valid rows can be counted in a `usize`.
proof fn use_rows_fit(v: RowsView)
    requires
        rows_wf(v),
    ensures
        v.width * v.height <= usize::MAX,
{
}

/// In a buffer that holds what the rows need, every row lies inside the buffer.
pub proof fn lemma_rows_in_buffer(width: int, height: int, stride: int, y: int)
    by (nonlinear_arith)
    requires
        0 <= width <= stride,
        0 <= y < height,
    ensures
        0 <= y * stride <= stride * (height - 1),
        y * stride + width <= pixels_needed(width, height, stride),
{
}

proof fn lemma_last_row_outside(len: int, width: int, height: int, stride: int)
    by (nonlinear_arith)
    requires
        1 <= width <= stride,
        1 <= height,
        0 <= len,
        len / stride < height - 1,
    ensures
        len < pixels_needed(width, height, stride),
{
}

proof fn lemma_last_row_starts_inside(len: int, height: int, stride: int)
    by (nonlinear_arith)
    requires
        1 <= stride,
        1 <= height,
        0 <= len,
        len / stride >= height - 1,
    ensures
        0 <= stride * (height - 1) <= len,
{
}

} // verus!
