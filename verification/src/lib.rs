//! Building blocks for turning RGBA images into images with a palette of up to 256 colors.
//!
//! * [`attr`]: the settings of a quantization and the limits that follow from them
//! * [`image`] and [`rows`]: images, and where their rows of pixels come from
//! * [`hist`]: the histogram of the colors of one or more images
//! * [`remap`]: the palette cut down to the colors in use, once the pixels have their indices
//! * [`error`], [`pal`], [`seacow`]: result codes, colors, and borrowed or owned memory
//!
//! Everything here is integer work and is verified. Colors in linear light, distances between
//! them and the search for a palette need floating point and are left to the caller.
#![allow(non_camel_case_types)]

use vstd::prelude::*;

pub mod attr;
pub mod error;
pub mod hist;
pub mod image;
pub mod pal;
pub mod remap;
pub mod rows;
pub mod seacow;

pub use attr::Attributes;
pub use attr::ControlFlow;
pub use error::liq_error;
pub use hist::Histogram;
pub use hist::HistogramEntry;
pub use image::Image;
pub use pal::RGBA;

verus! {

/// Bytes of converted pixels above which an image is converted one row at a time.
pub const LIQ_HIGH_MEMORY_LIMIT: usize = 0x400_0000;

/// Version of the library: major * 10000 + minor * 100 + patch.
pub const LIQ_VERSION: u32 = 40000;

/// Start here: creates new handle for library configuration
///
/// See [`Attributes`]
#[must_use]
pub fn new() -> (attr: Attributes)
    ensures
        attr.wf(),
        attr@ == attr::default_settings(),
{
    Attributes::new()
}

/// Entry `i` of the histogram that the k-means benchmark works on: a count below 12345 and an
/// opaque color whose channels are spread over the color space at different rates.
pub open spec fn bench_entry(i: int) -> HistogramEntry {
    HistogramEntry {
        count: ((i * 17) % 12345) as u32,
        color: RGBA {
            r: (i % 256) as u8,
            g: ((i * 7 / 4) % 256) as u8,
            b: (i * 11 / 2048) as u8,
            a: 255,
        },
    }
}

/// Color `i` of the palette that the k-means benchmark starts from: an opaque gray whose red
/// has its three lowest bits set.
pub open spec fn bench_color(i: int) -> RGBA {
    RGBA { r: (i as u8) | 7u8, g: i as u8, b: i as u8, a: 255 }
}

/// The input of the k-means benchmark, the same on every call: a histogram in which the 10000
/// entries of [`bench_entry`] have been counted, and a palette of the 256 colors of
/// [`bench_color`].
pub fn _unstable_internal_kmeans_bench() -> (input: (Histogram, Vec<RGBA>))
    ensures
        input.0.wf(),
        input.0@ == (hist::HistogramView {
            posterize_bits: 0,
            max_histogram_entries: attr::speed_max_histogram_entries(4),
            buckets: hist::accumulated(
                Seq::empty(),
                hist::items_of(Seq::new(10000, |i: int| bench_entry(i))),
                0,
            ),
        }),
        input.1@ == Seq::new(256, |i: int| bench_color(i)),
{
    let attr = new();
    let mut h = Histogram::new(&attr);
    let mut entries: Vec<HistogramEntry> = Vec::new();
    let mut i: u32 = 0;
    while i < 10000
        invariant
            i <= 10000,
            entries@ == Seq::new(i as nat, |j: int| bench_entry(j)),
        decreases 10000 - i,
    {
        let red: u32 = i % 256;
        let green: u32 = (i * 7 / 4) % 256;
        let blue: u32 = i * 11 / 2048;
        entries.push(
            HistogramEntry {
                count: (i * 17) % 12345,
                color: RGBA::new(red as u8, green as u8, blue as u8, 255),
            },
        );
        i += 1;
        assert(entries@ =~= Seq::new(i as nat, |j: int| bench_entry(j)));
    }
    proof {
        let items = hist::items_of(entries@);
        hist::lemma_bounded_total(items, 12345 * 255);
        hist::lemma_accumulated_len(Seq::empty(), items, 0);
    }
    let added = h.add_colors(entries.as_slice());
    assert(added is Ok);
    let mut palette: Vec<RGBA> = Vec::new();
    let mut n: u16 = 0;
    while n < 256
        invariant
            n <= 256,
            palette@ == Seq::new(n as nat, |j: int| bench_color(j)),
        decreases 256 - n,
    {
        let gray: u8 = n as u8;
        palette.push(RGBA::new(gray | 7, gray, gray, 255));
        n += 1;
        assert(palette@ =~= Seq::new(n as nat, |j: int| bench_color(j)));
    }
    (h, palette)
}

} // verus!
