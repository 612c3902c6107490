//! Where the rows of an image come from: a buffer of pixels, or a callback that produces one
//! row at a time.
//!
//! The pixels held here are those that the gamma-corrected form of the image is computed from,
//! one for one: what is said of a row of pixels holds of the converted row too.
use vstd::prelude::*;

use crate::error::liq_error;
use crate::pal::RGBA;
use crate::seacow::liq_ownership;
use crate::seacow::SeaCow;
use crate::LIQ_HIGH_MEMORY_LIMIT;

verus! {

/// Bytes that one pixel takes once it is converted.
pub const CONVERTED_PIXEL_SIZE: usize = 16;

/// Produces the rows of an image on demand, the same rows on every pass: what `fill_row`
/// hands out for a row and a width is `row_of` of that row and width, whenever it is asked.
/// [`RowFn`] makes such a producer from a function.
pub trait RowCallback: Send + Sync {
    /// The pixels that this callback hands out for row `row` of an image that is `width`
    /// pixels wide.
    spec fn row_of(&self, row: usize, width: usize) -> Seq<RGBA>;

    /// The pixels of row `row` of an image that is `width` pixels wide. A row that comes back
    /// shorter is filled up with transparent pixels and one that comes back longer is cut, see
    /// [`fit_row`].
    fn fill_row(&self, row: usize, width: usize) -> (pixels: Vec<RGBA>)
        ensures
            pixels@ == self.row_of(row, width),
    ;
}

/// Whether a function can produce the rows of an image: it can be called for every row and
/// width, and called again for the same row and width it hands out the same pixels.
pub open spec fn produces_rows<F: Fn(usize, usize) -> Vec<RGBA>>(f: F) -> bool {
    &&& forall|row: usize, width: usize| #[trigger] call_requires(f, (row, width))
    &&& forall|row: usize, width: usize, a: Vec<RGBA>, b: Vec<RGBA>|
        #[trigger] call_ensures(f, (row, width), a) && #[trigger] call_ensures(f, (row, width), b)
            ==> a@ == b@
}

/// A function from the number of a row and the width of the image to the pixels of the row,
/// as the producer of the rows of an image.
pub struct RowFn<F: Fn(usize, usize) -> Vec<RGBA>> {
    f: F,
}

impl<F: Fn(usize, usize) -> Vec<RGBA>> RowFn<F> {
    #[verifier::type_invariant]
    spec fn inv(self) -> bool {
        produces_rows(self.f)
    }

    /// The function that produces the rows.
    pub closed spec fn function(&self) -> F {
        self.f
    }

    /// The producer of the rows that `f` hands out.
    pub fn new(f: F) -> (rows: Self)
        requires
            produces_rows(f),
        ensures
            rows.function() == f,
    {
        RowFn { f }
    }
}

impl<F: Fn(usize, usize) -> Vec<RGBA> + Send + Sync> RowCallback for RowFn<F> {
    open spec fn row_of(&self, row: usize, width: usize) -> Seq<RGBA> {
        (choose|pixels: Vec<RGBA>| call_ensures(self.function(), (row, width), pixels))@
    }

    fn fill_row(&self, row: usize, width: usize) -> (pixels: Vec<RGBA>) {
        proof {
            use_type_invariant(self);
        }
        (self.f)(row, width)
    }
}

/// The source of the pixels of an image.
pub enum PixelsSource<'pixels, 'rows> {
    /// Rows inside a buffer of pixels: `rows[y]` is the place in `pixels` at which row `y`
    /// starts. Once the pixels have been released there are no rows and no pixels.
    Pixels { rows: SeaCow<'rows, usize>, pixels: Option<SeaCow<'pixels, RGBA>> },
    /// Rows that a callback produces.
    Callback(Box<dyn RowCallback>),
}

/// What a source of pixels holds.
pub enum SourceView {
    /// Rows inside a buffer of pixels
    Pixels {
        /// Where each row starts in the pixels
        rows: Seq<usize>,
        /// Whether the row starts belong to the image
        rows_owned: bool,
        /// The buffer, unless it was released
        pixels: Option<Seq<RGBA>>,
        /// Whether the buffer belongs to the image
        pixels_owned: bool,
    },
    /// Rows that a callback produces
    Callback {
        /// The pixels that the callback hands out for a row and a width
        row_of: spec_fn(usize, usize) -> Seq<RGBA>,
    },
}

impl<'pixels, 'rows> View for PixelsSource<'pixels, 'rows> {
    type V = SourceView;

    open spec fn view(&self) -> SourceView {
        match self {
            PixelsSource::Pixels { rows, pixels } => SourceView::Pixels {
                rows: rows@,
                rows_owned: rows is Owned,
                pixels: match pixels {
                    Some(p) => Some(p@),
                    None => None,
                },
                pixels_owned: pixels matches Some(p) && p is Owned,
            },
            PixelsSource::Callback(cb) => SourceView::Callback {
                row_of: |row: usize, width: usize| cb.row_of(row, width),
            },
        }
    }
}

/// What the rows of an image hold.
pub struct RowsView {
    /// Pixels in a row
    pub width: nat,
    /// Number of rows
    pub height: nat,
    /// All pixels of the image in row-major order, once every row has been pulled
    pub cached: Option<Seq<RGBA>>,
    /// Where the rows come from
    pub source: SourceView,
}

/// The rows of an image, and the pixels of the whole image once they have been pulled.
pub struct DynamicRows<'pixels, 'rows> {
    width: u32,
    height: u32,
    f_pixels: Option<Vec<RGBA>>,
    pixels: PixelsSource<'pixels, 'rows>,
}

impl<'pixels, 'rows> View for DynamicRows<'pixels, 'rows> {
    type V = RowsView;

    closed spec fn view(&self) -> RowsView {
        RowsView {
            width: self.width as nat,
            height: self.height as nat,
            cached: match self.f_pixels {
                Some(c) => Some(c@),
                None => None,
            },
            source: self.pixels@,
        }
    }
}

/// Access to the rows of an image one at a time.
pub struct DynamicRowsIter<'parent, 'pixels, 'rows> {
    px: &'parent DynamicRows<'pixels, 'rows>,
    temp_f_row: Option<Vec<RGBA>>,
}

/// The fully transparent pixel that fills rows which a callback left short.
pub open spec fn transparent() -> RGBA {
    RGBA { r: 0, g: 0, b: 0, a: 0 }
}

/// A row made `width` pixels long: cut where it is longer, filled up with transparent pixels
/// where it is shorter.
pub open spec fn fitted(row: Seq<RGBA>, width: nat) -> Seq<RGBA> {
    Seq::new(width, |i: int| if i < row.len() { row[i] } else { transparent() })
}

/// Whether a source holds `height` rows of `width` pixels, each inside the buffer.
pub open spec fn source_fits(source: SourceView, width: nat, height: nat) -> bool {
    match source {
        SourceView::Pixels { rows, pixels: Some(p), .. } => {
            &&& rows.len() == height
            &&& forall|y: int| 0 <= y < rows.len() ==> (#[trigger] rows[y]) + width <= p.len()
        },
        SourceView::Pixels { rows, pixels: None, .. } => false,
        SourceView::Callback { .. } => true,
    }
}

/// Whether the pixels of a source have been released.
pub open spec fn source_released(source: SourceView) -> bool {
    source matches SourceView::Pixels { rows, pixels: None, .. } && rows.len() == 0
}

/// Whether a source is a buffer of pixels that has no rows.
pub open spec fn source_without_rows(source: SourceView) -> bool {
    source matches SourceView::Pixels { rows, .. } && rows.len() == 0
}

/// Whether row `row` can be pulled from a source: a buffer of pixels has the rows that it
/// has, a callback produces whichever row it is asked for.
pub open spec fn can_pull(source: SourceView, row: int) -> bool {
    match source {
        SourceView::Pixels { rows, pixels, .. } => pixels is Some && 0 <= row < rows.len(),
        SourceView::Callback { .. } => 0 <= row <= usize::MAX,
    }
}

/// Row `y` of a source, for rows of `width` pixels: for a buffer of pixels the pixels from
/// the start of the row on, for a callback what it hands out for the row, fitted to the width.
/// A buffer that was released has no rows.
pub open spec fn source_row(source: SourceView, width: nat, y: int) -> Seq<RGBA> {
    match source {
        SourceView::Pixels { rows, pixels: Some(p), .. } => p.subrange(
            rows[y] as int,
            rows[y] + width,
        ),
        SourceView::Pixels { pixels: None, .. } => Seq::empty(),
        SourceView::Callback { row_of } => fitted(row_of(y as usize, width as usize), width),
    }
}

/// The first `height` rows of a source.
pub open spec fn source_rows(source: SourceView, width: nat, height: nat) -> Seq<Seq<RGBA>> {
    Seq::new(height, |y: int| source_row(source, width, y))
}

/// The image of a source: its rows one after the other.
pub open spec fn source_image(source: SourceView, width: nat, height: nat) -> Seq<RGBA> {
    source_rows(source, width, height).flatten()
}

/// Validity of the rows of an image: the pixels can be counted in a `usize`, the source either
/// holds every row or was released after all rows were pulled, and the pixels that are held
/// are the rows of the source as long as the source is there.
pub open spec fn rows_wf(v: RowsView) -> bool {
    &&& v.width * v.height <= usize::MAX
    &&& (v.cached matches Some(c) ==> c.len() == v.width * v.height)
    &&& (source_fits(v.source, v.width, v.height) || (source_released(v.source)
        && v.cached is Some))
    &&& (v.cached matches Some(c) ==> (!source_released(v.source) ==> c == source_image(
        v.source,
        v.width,
        v.height,
    )))
}

/// Whether an image of these dimensions is converted row by row rather than as a whole: when
/// the whole would take more than the memory limit.
pub open spec fn low_memory(width: nat, height: nat) -> bool {
    width * height > LIQ_HIGH_MEMORY_LIMIT / CONVERTED_PIXEL_SIZE
}

/// What pulling the rows of an image leaves behind. Where the pixels are held already nothing
/// changes. Where the image is large and the caller may go row by row, nothing changes either
/// and a buffer for one row is handed out. Otherwise every row is pulled: the pixels of the
/// whole image are held afterwards, and they are the rows of the source one after the other.
pub open spec fn prepared(
    before: RowsView,
    allow_streamed: bool,
    after: RowsView,
    temp_row: Option<Vec<RGBA>>,
) -> bool {
    if before.cached is Some {
        after == before && temp_row is None
    } else if allow_streamed && low_memory(before.width, before.height) {
        after == before && (temp_row matches Some(t) && t@.len() == before.width)
    } else {
        &&& temp_row is None
        &&& after.width == before.width
        &&& after.height == before.height
        &&& after.source == before.source
        &&& (after.cached matches Some(c) && c.len() == before.width * before.height)
        &&& after.cached == Some(source_image(before.source, before.width, before.height))
    }
}

/// Whether pulling the rows of an image calls its callback: when the rows come from a callback,
/// are not held yet, and are not left to be pulled one at a time.
pub open spec fn pulls_from_callback(before: RowsView, allow_streamed: bool) -> bool {
    &&& before.source is Callback
    &&& before.cached is None
    &&& !(allow_streamed && low_memory(before.width, before.height))
}

/// Whether the pixels from the start of row `row` can be read: where the pixels of the whole
/// image are held, the row must not start behind them; else the row must be one that can be
/// pulled from the source.
pub open spec fn can_read(v: RowsView, row: int) -> bool {
    match v.cached {
        Some(c) => 0 <= v.width * row <= c.len(),
        None => can_pull(v.source, row),
    }
}

/// Whether reading a row calls the callback of an image: when the rows come from a callback
/// and are not held.
pub open spec fn reads_callback(v: RowsView) -> bool {
    v.source is Callback && v.cached is None
}

/// What reading from the start of row `row` hands out: where the pixels of the whole image are
/// held, all of them from the start of the row on; else the row of the source, which has the
/// width of the image.
pub open spec fn row_read(v: RowsView, row: int, r: Seq<RGBA>) -> bool {
    match v.cached {
        Some(c) => r == c.subrange(v.width * row, c.len() as int),
        None => r.len() == v.width && r == source_row(v.source, v.width, row),
    }
}

/// Whether handing memory over succeeds, see [`DynamicRows::set_memory_ownership`].
pub open spec fn ownership_result(v: RowsView, flags: liq_ownership) -> Result<
    (),
    liq_error,
> {
    if flags.copy_pixels || !(flags.own_rows || flags.own_pixels) {
        Err(liq_error::LIQ_VALUE_OUT_OF_RANGE)
    } else {
        match v.source {
            SourceView::Callback { .. } => Err(liq_error::LIQ_UNSUPPORTED),
            SourceView::Pixels { pixels, .. } => if flags.own_pixels && pixels is None {
                Err(liq_error::LIQ_UNSUPPORTED)
            } else {
                Ok(())
            },
        }
    }
}

/// The rows of an image after memory has been handed over: with valid flags, the row starts of
/// a buffer belong to the image if they were asked for, and so do the pixels if they were asked
/// for and are there. Nothing else changes.
pub open spec fn ownership_taken(v: RowsView, flags: liq_ownership) -> RowsView {
    if flags.copy_pixels || !(flags.own_rows || flags.own_pixels) {
        v
    } else {
        match v.source {
            SourceView::Callback { .. } => v,
            SourceView::Pixels { rows, rows_owned, pixels, pixels_owned } => RowsView {
                source: SourceView::Pixels {
                    rows,
                    rows_owned: rows_owned || flags.own_rows,
                    pixels,
                    pixels_owned: pixels_owned || (flags.own_pixels && pixels is Some),
                },
                ..v
            },
        }
    }
}

/// A buffer of `len` transparent pixels.
pub fn temp_buf(len: usize) -> (buf: Vec<RGBA>)
    ensures
        buf@ == Seq::new(len as nat, |i: int| transparent()),
{
    let mut buf: Vec<RGBA> = Vec::new();
    let mut i: usize = 0;
    while i < len
        invariant
            i <= len,
            buf@ == Seq::new(i as nat, |j: int| transparent()),
        decreases len - i,
    {
        buf.push(RGBA { r: 0, g: 0, b: 0, a: 0 });
        i += 1;
        assert(buf@ =~= Seq::new(i as nat, |j: int| transparent()));
    }
    buf
}

/// Makes a row `width` pixels long: a longer row is cut, a shorter one is filled up with
/// transparent pixels.
pub fn fit_row(row: Vec<RGBA>, width: usize) -> (out: Vec<RGBA>)
    ensures
        out@ == fitted(row@, width as nat),
{
    let mut out = row;
    out.truncate(width);
    assert(out@ =~= fitted(row@, out@.len()));
    while out.len() < width
        invariant
            out@.len() <= width,
            out@.len() >= row@.len() || out@.len() == width,
            out@ == fitted(row@, out@.len()),
        decreases width - out@.len(),
    {
        out.push(RGBA { r: 0, g: 0, b: 0, a: 0 });
        assert(out@ =~= fitted(row@, out@.len()));
    }
    out
}

/// Appends a row to the pixels of an image.
fn push_row(image: &mut Vec<RGBA>, row: &[RGBA])
    ensures
        final(image)@ == old(image)@ + row@,
{
    let mut i: usize = 0;
    while i < row.len()
        invariant
            i <= row@.len(),
            image@ == old(image)@ + row@.take(i as int),
        decreases row@.len() - i,
    {
        image.push(row[i]);
        i += 1;
        assert(image@ =~= old(image)@ + row@.take(i as int));
    }
    assert(row@.take(row@.len() as int) =~= row@);
}

impl<'pixels, 'rows> DynamicRows<'pixels, 'rows> {
    /// Validity, see [`rows_wf`].
    pub open spec fn wf(&self) -> bool {
        rows_wf(self@)
    }

    /// The rows of an image of `width` by `height` pixels that come from `pixels`.
    pub fn new(width: u32, height: u32, pixels: PixelsSource<'pixels, 'rows>) -> (px: Self)
        requires
            width * height <= usize::MAX,
            source_fits(pixels@, width as nat, height as nat),
        ensures
            px.wf(),
            px@ == (RowsView {
                width: width as nat,
                height: height as nat,
                cached: None,
                source: pixels@,
            }),
    {
        Self { width, height, f_pixels: None, pixels }
    }

    /// Row `row` of the image, pulled from the source. A row of a buffer is handed out where
    /// it lies; a row of a callback is put into `temp_row` and handed out from there.
    fn row_rgba<'px>(&'px self, temp_row: &'px mut Vec<RGBA>, row: usize) -> (r: &'px [RGBA])
        requires
            self.wf(),
            can_pull(self@.source, row as int),
        ensures
            r@.len() == self@.width,
            r@ == source_row(self@.source, self@.width, row as int),
            self@.source is Pixels ==> final(temp_row)@ == old(temp_row)@,
            self@.source is Callback ==> final(temp_row)@ == r@,
    {
        match &self.pixels {
            PixelsSource::Pixels { rows, pixels: Some(pixels) } => {
                let start: usize = rows.as_slice()[row];
                let all = pixels.as_slice();
                assert(all@.len() == all.len());
                &all[start..start + self.width()]
            },
            PixelsSource::Pixels { pixels: None, .. } => temp_row.as_slice(),
            PixelsSource::Callback(cb) => {
                let width: usize = self.width();
                let pulled = cb.fill_row(row, width);
                proof {
                    assert((row as int) as usize == row && (self@.width as usize) == width);
                }
                *temp_row = fit_row(pulled, width);
                temp_row.as_slice()
            },
        }
    }

    /// Whether the image is too large to keep all of its pixels in converted form.
    fn should_use_low_memory(&self) -> (low: bool)
        ensures
            low == low_memory(self@.width, self@.height),
    {
        assert(self.width * self.height <= 0xffff_ffff * 0xffff_ffff) by (nonlinear_arith)
            requires
                self.width <= 0xffff_ffff,
                self.height <= 0xffff_ffff,
        ;
        (self.width as u64) * (self.height as u64) > (LIQ_HIGH_MEMORY_LIMIT
            / CONVERTED_PIXEL_SIZE) as u64
    }

    /// Pulls all rows unless they are held already, or unless the image is large and
    /// `allow_streamed` lets the caller go row by row: then a buffer for one row comes back.
    fn prepare_f_pixels(&mut self, temp_row: &mut Vec<RGBA>, allow_streamed: bool) -> (r: Result<
        Option<Vec<RGBA>>,
        liq_error,
    >)
        requires
            old(self).wf(),
        ensures
            final(self).wf(),
            r is Ok,
            prepared(old(self)@, allow_streamed, final(self)@, r->Ok_0),
            !pulls_from_callback(old(self)@, allow_streamed) ==> final(temp_row)@ == old(
                temp_row,
            )@,
    {
        if self.f_pixels.is_some() {
            return Ok(None);
        }
        self.prepare_generated_image(temp_row, allow_streamed)
    }

    /// Pulls all rows, or, where the image is large and `allow_streamed` lets the caller go row
    /// by row, hands back a buffer for one row.
    fn prepare_generated_image(&mut self, temp_row: &mut Vec<RGBA>, allow_streamed: bool) -> (r:
        Result<Option<Vec<RGBA>>, liq_error>)
        requires
            old(self).wf(),
            old(self)@.cached is None,
        ensures
            final(self).wf(),
            r is Ok,
            prepared(old(self)@, allow_streamed, final(self)@, r->Ok_0),
            !pulls_from_callback(old(self)@, allow_streamed) ==> final(temp_row)@ == old(
                temp_row,
            )@,
    {
        if allow_streamed && self.should_use_low_memory() {
            return Ok(Some(temp_buf(self.width())));
        }
        let width = self.width();
        let height = self.height();
        let ghost v = self@;
        let mut f_pixels: Vec<RGBA> = Vec::new();
        let mut row: usize = 0;
        while row < height
            invariant
                self.wf(),
                self@ == v,
                v.cached is None,
                width == v.width,
                height == v.height,
                row <= height,
                f_pixels@.len() == row * width,
                v.source is Pixels ==> temp_row@ == old(temp_row)@,
                f_pixels@ == source_rows(v.source, v.width, row as nat).flatten(),
            decreases height - row,
        {
            let row_pixels = self.row_rgba(temp_row, row);
            push_row(&mut f_pixels, row_pixels);
            proof {
                assert((row + 1) * width == row * width + width) by (nonlinear_arith);
                let done = source_rows(v.source, v.width, row as nat);
                let this = source_row(v.source, v.width, row as int);
                assert(source_rows(v.source, v.width, (row + 1) as nat) =~= done.push(this));
                done.lemma_flatten_push(this);
            }
            row += 1;
        }
        proof {
            assert(height * width == v.width * v.height) by (nonlinear_arith)
                requires
                    height == v.height,
                    width == v.width,
            ;
        }
        self.f_pixels = Some(f_pixels);
        Ok(None)
    }

    /// Access to the rows in converted form, one at a time. Pulls all rows first unless the
    /// image is large.
    pub fn rows_iter<'a>(&'a mut self, temp_row: &mut Vec<RGBA>) -> (r: Result<
        DynamicRowsIter<'a, 'pixels, 'rows>,
        liq_error,
    >)
        requires
            old(self).wf(),
        ensures
            final(self).wf(),
            r matches Ok(it) && (it.rows() == final(self)@ && prepared(
                old(self)@,
                true,
                final(self)@,
                it.temp_row(),
            )),
            !pulls_from_callback(old(self)@, true) ==> final(temp_row)@ == old(temp_row)@,
    {
        let temp_f_row = self.prepare_f_pixels(temp_row, true)?;
        Ok(DynamicRowsIter { temp_f_row, px: self })
    }

    /// Access to the rows as they come from the source, one at a time. Fails with
    /// `LIQ_UNSUPPORTED` when the source is a buffer without rows, as it is once the pixels
    /// have been released.
    pub fn rgba_rows_iter(&self) -> (r: Result<DynamicRowsIter<'_, 'pixels, 'rows>, liq_error>)
        ensures
            match r {
                Ok(it) => it.rows() == self@ && it.temp_row() is None && !source_without_rows(
                    self@.source,
                ),
                Err(e) => e == liq_error::LIQ_UNSUPPORTED && source_without_rows(self@.source),
            },
    {
        // This happens when histogram image is recycled
        if let PixelsSource::Pixels { rows, .. } = &self.pixels {
            if rows.as_slice().len() == 0 {
                return Err(liq_error::LIQ_UNSUPPORTED);
            }
        }
        Ok(DynamicRowsIter { px: self, temp_f_row: None })
    }

    /// All pixels of the image in row-major order, pulled now unless they are held already.
    pub fn all_rows_f(&mut self) -> (r: Result<&[RGBA], liq_error>)
        requires
            old(self).wf(),
        ensures
            final(self).wf(),
            r matches Ok(all) && final(self)@.cached == Some(all@),
            prepared(old(self)@, false, final(self)@, None),
    {
        if self.f_pixels.is_none() {
            let mut temp_row = temp_buf(self.width());
            let _ = self.prepare_f_pixels(&mut temp_row, false)?;
        }
        match &self.f_pixels {
            Some(all) => Ok(all.as_slice()),
            None => Err(liq_error::LIQ_UNSUPPORTED),
        }
    }

    /// Hands memory of the image over to it, so that it lives as long as the image does.
    ///
    /// `ownership_flags` must hold `LIQ_OWN_ROWS`, `LIQ_OWN_PIXELS` or both and nothing else,
    /// or the call fails with `LIQ_VALUE_OUT_OF_RANGE` and changes nothing. Rows that a
    /// callback produces cannot be handed over, nor can pixels that were released: that fails
    /// with `LIQ_UNSUPPORTED`. The row starts are taken over before the pixels are looked at.
    pub fn set_memory_ownership(&mut self, ownership_flags: liq_ownership) -> (r: Result<
        (),
        liq_error,
    >)
        requires
            old(self).wf(),
        ensures
            final(self).wf(),
            r == ownership_result(old(self)@, ownership_flags),
            final(self)@ == ownership_taken(old(self)@, ownership_flags),
    {
        let own_rows = liq_ownership::LIQ_OWN_ROWS();
        let own_pixels = liq_ownership::LIQ_OWN_PIXELS();
        let both = own_rows | own_pixels;
        if ownership_flags.is_empty() || !both.contains(ownership_flags) {
            return Err(liq_error::LIQ_VALUE_OUT_OF_RANGE);
        }
        if ownership_flags.contains(own_rows) {
            match &mut self.pixels {
                PixelsSource::Pixels { rows, .. } => rows.make_owned(),
                PixelsSource::Callback(_) => return Err(liq_error::LIQ_UNSUPPORTED),
            }
        }
        if ownership_flags.contains(own_pixels) {
            match &mut self.pixels {
                PixelsSource::Pixels { pixels: Some(pixels), .. } => pixels.make_owned(),
                PixelsSource::Pixels { pixels: None, .. } => return Err(
                    liq_error::LIQ_UNSUPPORTED,
                ),
                PixelsSource::Callback(_) => return Err(liq_error::LIQ_UNSUPPORTED),
            }
        }
        proof {
            let v = old(self)@;
            assert(source_rows(self@.source, v.width, v.height) =~= source_rows(
                v.source,
                v.width,
                v.height,
            ));
        }
        Ok(())
    }

    /// Releases the source of the pixels once all rows have been pulled: the image keeps what
    /// it pulled and lets go of the buffer or the callback.
    pub fn free_histogram_inputs(&mut self)
        requires
            old(self).wf(),
        ensures
            final(self).wf(),
            old(self)@.cached is None ==> final(self)@ == old(self)@,
            old(self)@.cached is Some ==> final(self)@ == (RowsView {
                source: SourceView::Pixels {
                    rows: Seq::empty(),
                    rows_owned: true,
                    pixels: None,
                    pixels_owned: false,
                },
                ..old(self)@
            }),
    {
        if self.f_pixels.is_some() {
            self.pixels = PixelsSource::Pixels { rows: SeaCow::boxed(Vec::new()), pixels: None };
        }
    }

    /// Whether the pixels of the whole image are held.
    pub fn has_all_rows(&self) -> (held: bool)
        ensures
            held == (self@.cached is Some),
    {
        self.f_pixels.is_some()
    }

    /// Whether the source of the pixels has been released, so that no row can be pulled.
    pub fn is_released(&self) -> (released: bool)
        ensures
            released == source_released(self@.source),
    {
        match &self.pixels {
            PixelsSource::Pixels { rows, pixels } => pixels.is_none() && rows.len() == 0,
            PixelsSource::Callback(_) => false,
        }
    }

    /// Whether row `row` can be pulled from the source.
    pub fn can_pull_row(&self, row: usize) -> (can: bool)
        ensures
            can == can_pull(self@.source, row as int),
    {
        match &self.pixels {
            PixelsSource::Pixels { rows, pixels } => pixels.is_some() && row < rows.len(),
            PixelsSource::Callback(_) => true,
        }
    }

    /// Pixels in a row.
    pub fn width(&self) -> (w: usize)
        ensures
            w == self@.width,
    {
        self.width as usize
    }

    /// Number of rows.
    pub fn height(&self) -> (h: usize)
        ensures
            h == self@.height,
    {
        self.height as usize
    }
}

impl<'parent, 'pixels, 'rows> DynamicRowsIter<'parent, 'pixels, 'rows> {
    /// What the rows hold that this object gives access to.
    pub closed spec fn rows(&self) -> RowsView {
        self.px@
    }

    /// The buffer for one row, held when the rows are pulled one at a time.
    pub closed spec fn temp_row(&self) -> Option<Vec<RGBA>> {
        self.temp_f_row
    }

    /// The rows that this object gives access to.
    pub fn image(&self) -> (px: &DynamicRows<'pixels, 'rows>)
        ensures
            px@ == self.rows(),
    {
        self.px
    }

    /// Whether a buffer for one row is held, as it is when the rows are pulled one at a time.
    pub fn has_temp_row(&self) -> (held: bool)
        ensures
            held == (self.temp_row() is Some),
    {
        self.temp_f_row.is_some()
    }

    /// The pixels from the start of row `row`: to the end of the image where the pixels of the
    /// whole image are held, else to the end of the row, which is pulled from the source.
    pub fn row_f<'px>(&'px mut self, temp_row: &mut Vec<RGBA>, row: usize) -> (r: &'px [RGBA])
        requires
            rows_wf(old(self).rows()),
            can_read(old(self).rows(), row as int),
            old(self).rows().cached is None ==> old(self).temp_row() is Some,
        ensures
            final(self).rows() == old(self).rows(),
            old(self).temp_row() is Some ==> final(self).temp_row() is Some,
            old(self).rows().cached is Some ==> final(self).temp_row() == old(self).temp_row(),
            old(self).rows().cached is None ==> final(self).temp_row() is Some
                && final(self).temp_row()->0@ == r@,
            row_read(old(self).rows(), row as int, r@),
            reads_callback(old(self).rows()) ==> final(temp_row)@ == r@,
            !reads_callback(old(self).rows()) ==> final(temp_row)@ == old(temp_row)@,
    {
        match self.px.f_pixels.as_ref() {
            Some(pixels) => {
                let all = pixels.as_slice();
                &all[self.px.width() * row..all.len()]
            },
            None => {
                let mut t: Vec<RGBA> = Vec::new();
                let row_pixels = self.px.row_rgba(temp_row, row);
                push_row(&mut t, row_pixels);
                self.temp_f_row = Some(t);
                self.temp_f_row.as_ref().unwrap().as_slice()
            },
        }
    }

    /// As [`Self::row_f`], with the buffer for one row given by the caller.
    pub fn row_f2<'px>(
        &'px self,
        temp_row: &mut Vec<RGBA>,
        temp_row_f: &'px mut Vec<RGBA>,
        row: usize,
    ) -> (r: &'px [RGBA])
        requires
            rows_wf(self.rows()),
            can_read(self.rows(), row as int),
        ensures
            row_read(self.rows(), row as int, r@),
            reads_callback(self.rows()) ==> final(temp_row)@ == r@,
            !reads_callback(self.rows()) ==> final(temp_row)@ == old(temp_row)@,
            self.rows().cached is Some ==> final(temp_row_f)@ == old(temp_row_f)@,
            self.rows().cached is None ==> final(temp_row_f)@ == r@,
    {
        match self.px.f_pixels.as_ref() {
            Some(pixels) => {
                let all = pixels.as_slice();
                &all[self.px.width() * row..all.len()]
            },
            None => {
                let mut t: Vec<RGBA> = Vec::new();
                let row_pixels = self.px.row_rgba(temp_row, row);
                push_row(&mut t, row_pixels);
                *temp_row_f = t;
                temp_row_f.as_slice()
            },
        }
    }

    /// Row `row` as it comes from the source.
    pub fn row_rgba<'px>(&'px self, temp_row: &'px mut Vec<RGBA>, row: usize) -> (r: &'px [RGBA])
        requires
            rows_wf(self.rows()),
            can_pull(self.rows().source, row as int),
        ensures
            r@.len() == self.rows().width,
            r@ == source_row(self.rows().source, self.rows().width, row as int),
            self.rows().source is Pixels ==> final(temp_row)@ == old(temp_row)@,
            self.rows().source is Callback ==> final(temp_row)@ == r@,
    {
        self.px.row_rgba(temp_row, row)
    }
}

/// The rows of a [`RowFn`] are what its function hands out: whatever the function can return
/// for a row and a width is the row.
pub proof fn lemma_row_fn_rows<F: Fn(usize, usize) -> Vec<RGBA> + Send + Sync>(
    rows: RowFn<F>,
    row: usize,
    width: usize,
    pixels: Vec<RGBA>,
)
    requires
        produces_rows(rows.function()),
        call_ensures(rows.function(), (row, width), pixels),
    ensures
        rows.row_of(row, width) == pixels@,
{
    let chosen = choose|c: Vec<RGBA>| call_ensures(rows.function(), (row, width), c);
    assert(call_ensures(rows.function(), (row, width), chosen));
}

/// The rows of an image lie one after the other: row `row` of `height` rows of `width` pixels
/// starts and ends inside the image.
pub proof fn lemma_row_offsets(width: nat, height: nat, row: nat)
    by (nonlinear_arith)
    requires
        row < height,
    ensures
        0 <= width * row <= width * row + width <= width * height,
{
}

/// Rows of the same width that are laid out one after the other can be found again: the
/// whole is as long as all rows together, and row `y` lies at `y` times the width.
pub proof fn lemma_flatten_rows<A>(rows: Seq<Seq<A>>, width: nat, y: int)
    requires
        forall|i: int| 0 <= i < rows.len() ==> (#[trigger] rows[i]).len() == width,
        0 <= y < rows.len(),
    ensures
        rows.flatten().len() == rows.len() * width,
        0 <= y * width <= y * width + width <= rows.flatten().len(),
        rows.flatten().subrange(y * width, y * width + width) == rows[y],
    decreases rows.len(),
{
    let front = rows.drop_last();
    let n = front.len() as int;
    rows.lemma_flatten_and_flatten_alt_are_equivalent();
    front.lemma_flatten_and_flatten_alt_are_equivalent();
    assert(rows.flatten() == front.flatten() + rows.last());
    assert((n + 1) * width == n * width + width) by (nonlinear_arith);
    if n == 0 {
        assert(front.flatten() =~= Seq::<A>::empty());
        assert(0 * width == 0) by (nonlinear_arith);
        assert(rows.flatten().subrange(0, width as int) =~= rows[0]);
    } else {
        lemma_flatten_rows(front, width, if y < n { y } else { 0 });
        lemma_row_offsets(width, rows.len(), y as nat);
        assert(y * width == width * y && rows.len() * width == width * rows.len())
            by (nonlinear_arith);
        if y < n {
            assert(rows.flatten().subrange(y * width, y * width + width) =~= front.flatten().subrange(
                y * width,
                y * width + width,
            ));
        } else {
            assert(rows.flatten().subrange(y * width, y * width + width) =~= rows.last());
        }
    }
}

/// Once all rows of an image have been pulled, what is held of a row is the row of the source:
/// reading the converted rows and reading the rows of the source agree.
pub proof fn lemma_cached_row(v: RowsView, y: int)
    requires
        rows_wf(v),
        v.cached is Some,
        !source_released(v.source),
        0 <= y < v.height,
    ensures
        0 <= v.width * y <= v.width * y + v.width <= v.cached->0.len(),
        v.cached->0.subrange(v.width * y, v.width * y + v.width) == source_row(
            v.source,
            v.width,
            y,
        ),
{
    let rows = source_rows(v.source, v.width, v.height);
    lemma_flatten_rows(rows, v.width, y);
    assert(y * v.width == v.width * y) by (nonlinear_arith);
}

} // verus!
