//! The histogram of an image: its distinct colors after posterization, each with the weight
//! of the pixels that have it.
//!
//! Weights are counted in units of 1/255 of a pixel, so that a pixel counts 255 and a pixel
//! with an importance of `b` counts `b`.
use std::collections::HashMap;
use vstd::prelude::*;

use crate::attr::speed_max_histogram_entries;
use crate::attr::speed_min_posterization_input;
use crate::attr::larger;
use crate::attr::Attributes;
use crate::error::liq_error;
use crate::image::Image;
use crate::pal::RGBA;
use crate::rows::rows_wf;
use crate::rows::source_image;
use crate::rows::source_row;
use crate::rows::source_rows;
use crate::rows::source_without_rows;
use crate::rows::temp_buf;
use crate::rows::RowsView;
use crate::rows::SourceView;

verus! {

/// Weight of a pixel that counts in full.
pub const FULL_WEIGHT: u64 = 255;

/// A color and the number of pixels that have it, for filling a histogram by hand.
#[derive(Clone, Copy, Debug, PartialEq, Eq, Structural)]
pub struct HistogramEntry {
    /// The color
    pub color: RGBA,
    /// How many pixels have it
    pub count: u32,
}

/// A color and the weight it carries.
pub struct Bucket {
    /// The color
    pub color: RGBA,
    /// Weight in units of 1/255 of a pixel
    pub weight: nat,
}

/// A distinct color of a histogram and the weight accumulated for it.
#[derive(Clone, Copy, Debug, PartialEq, Eq, Structural)]
pub struct HistEntry {
    /// The color, with the bits that posterization drops cleared
    pub color: RGBA,
    /// Weight in units of 1/255 of a pixel
    pub weight: u64,
}

impl View for HistEntry {
    type V = Bucket;

    open spec fn view(&self) -> Bucket {
        Bucket { color: self.color, weight: self.weight as nat }
    }
}

/// What a histogram holds.
pub struct HistogramView {
    /// Bits that are dropped from every channel
    pub posterize_bits: int,
    /// Buckets above which more bits are dropped, as far as there are bits left
    pub max_histogram_entries: int,
    /// The distinct colors, in the order in which they were first seen, with their weights
    pub buckets: Seq<Bucket>,
}

/// The distinct colors of one or more images after posterization, each with its weight.
pub struct Histogram {
    posterize_bits: u8,
    max_histogram_entries: u32,
    total: u64,
    entries: Vec<HistEntry>,
    index: HashMap<u32, usize>,
}

impl View for Histogram {
    type V = HistogramView;

    closed spec fn view(&self) -> HistogramView {
        HistogramView {
            posterize_bits: self.posterize_bits as int,
            max_histogram_entries: self.max_histogram_entries as int,
            buckets: buckets_of(self.entries@),
        }
    }
}

/// The buckets that a run of entries stands for.
pub open spec fn buckets_of(entries: Seq<HistEntry>) -> Seq<Bucket> {
    Seq::new(entries.len(), |i: int| entries[i]@)
}

/// Two to the power of `bits`, for the 0 to 4 bits that posterization drops.
pub open spec fn posterize_step(bits: int) -> int {
    if bits <= 0 {
        1
    } else if bits == 1 {
        2
    } else if bits == 2 {
        4
    } else if bits == 3 {
        8
    } else {
        16
    }
}

/// A channel with its `bits` least significant bits cleared.
pub open spec fn posterized_channel(x: u8, bits: int) -> u8 {
    (x as int - (x as int) % posterize_step(bits)) as u8
}

/// A color with the `bits` least significant bits of each channel cleared.
pub open spec fn posterized(c: RGBA, bits: int) -> RGBA {
    RGBA {
        r: posterized_channel(c.r, bits),
        g: posterized_channel(c.g, bits),
        b: posterized_channel(c.b, bits),
        a: posterized_channel(c.a, bits),
    }
}

/// The 32-bit number that a color is found by: its channels, red lowest.
pub open spec fn color_key(c: RGBA) -> int {
    c.r + 0x100 * c.g + 0x1_0000 * c.b + 0x100_0000 * c.a
}

/// The weights of a run of buckets, added up.
pub open spec fn total_weight(buckets: Seq<Bucket>) -> nat
    decreases buckets.len(),
{
    if buckets.len() == 0 {
        0
    } else {
        total_weight(buckets.drop_last()) + buckets.last().weight
    }
}

/// Whether a color has a bucket.
pub open spec fn has_color(buckets: Seq<Bucket>, color: RGBA) -> bool {
    exists|i: int| 0 <= i < buckets.len() && (#[trigger] buckets[i]).color == color
}

/// The place of the bucket of a color that has one.
pub open spec fn position(buckets: Seq<Bucket>, color: RGBA) -> int {
    choose|i: int| 0 <= i < buckets.len() && (#[trigger] buckets[i]).color == color
}

/// Whether no two buckets have the same color.
pub open spec fn distinct_colors(buckets: Seq<Bucket>) -> bool {
    forall|i: int, j: int|
        0 <= i < j < buckets.len() ==> (#[trigger] buckets[i]).color != (#[trigger] buckets[j]).color
}

/// Whether every bucket has a color that posterization by `bits` leaves as it is, and a weight
/// that is not zero.
pub open spec fn all_posterized(buckets: Seq<Bucket>, bits: int) -> bool {
    forall|i: int|
        0 <= i < buckets.len() ==> posterized((#[trigger] buckets[i]).color, bits)
            == buckets[i].color && buckets[i].weight > 0
}

/// Validity of what a histogram holds: no two buckets share a color, every color is
/// posterized by the bits of the histogram, no bucket is empty, and the total weight can be
/// counted in 64 bits.
pub open spec fn histogram_wf(v: HistogramView) -> bool {
    &&& 0 <= v.posterize_bits <= 4
    &&& distinct_colors(v.buckets)
    &&& all_posterized(v.buckets, v.posterize_bits)
    &&& total_weight(v.buckets) <= u64::MAX
}

/// The buckets after `weight` has been counted for `color`: nothing changes for a weight of
/// zero; a color that has a bucket gets the weight on top; a new color gets a bucket at the end.
pub open spec fn added(buckets: Seq<Bucket>, color: RGBA, weight: nat) -> Seq<Bucket> {
    if weight == 0 {
        buckets
    } else if has_color(buckets, color) {
        let i = position(buckets, color);
        buckets.update(i, Bucket { color, weight: buckets[i].weight + weight })
    } else {
        buckets.push(Bucket { color, weight })
    }
}

/// The buckets after every item has been counted, in order, for its color posterized by `bits`.
pub open spec fn accumulated(buckets: Seq<Bucket>, items: Seq<Bucket>, bits: int) -> Seq<Bucket>
    decreases items.len(),
{
    if items.len() == 0 {
        buckets
    } else {
        added(
            accumulated(buckets, items.drop_last(), bits),
            posterized(items.last().color, bits),
            items.last().weight,
        )
    }
}

/// The buckets of a histogram built again with `bits` bits dropped: buckets whose colors fall
/// together are merged.
pub open spec fn reposterized(buckets: Seq<Bucket>, bits: int) -> Seq<Bucket> {
    accumulated(Seq::empty(), buckets, bits)
}

/// The bits that a histogram drops once it fits: as long as it holds more than `max_entries`
/// buckets and drops fewer than 4 bits, one more bit is dropped.
pub open spec fn fitting_bits(buckets: Seq<Bucket>, bits: int, max_entries: int) -> int
    decreases 4 - bits,
{
    if bits >= 4 || buckets.len() <= max_entries {
        bits
    } else {
        fitting_bits(reposterized(buckets, bits + 1), bits + 1, max_entries)
    }
}

/// The buckets of a histogram once it fits, see [`fitting_bits`].
pub open spec fn fitting_buckets(buckets: Seq<Bucket>, bits: int, max_entries: int) -> Seq<Bucket>
    decreases 4 - bits,
{
    if bits >= 4 || buckets.len() <= max_entries {
        buckets
    } else {
        fitting_buckets(reposterized(buckets, bits + 1), bits + 1, max_entries)
    }
}

/// The items that entries given by hand stand for: each color with the weight of as many
/// pixels as its count says.
pub open spec fn items_of(entries: Seq<HistogramEntry>) -> Seq<Bucket> {
    Seq::new(
        entries.len(),
        |i: int| Bucket { color: entries[i].color, weight: (entries[i].count * FULL_WEIGHT) as nat },
    )
}

/// The items that the pixels of an image stand for: each pixel with its importance as its
/// weight, or with the full weight where there is no importance map.
pub open spec fn items_of_pixels(pixels: Seq<RGBA>, importance: Option<Seq<u8>>) -> Seq<Bucket> {
    Seq::new(
        pixels.len(),
        |i: int|
            Bucket {
                color: pixels[i],
                weight: match importance {
                    Some(map) => map[i] as nat,
                    None => FULL_WEIGHT as nat,
                },
            },
    )
}

/// The items that the pixels of a row stand for: each pixel with its importance, which is
/// found `offset` values into the map, or with the full weight where there is no map.
pub open spec fn row_items(row: Seq<RGBA>, importance: Option<Seq<u8>>, offset: int) -> Seq<
    Bucket,
> {
    Seq::new(
        row.len(),
        |x: int|
            Bucket {
                color: row[x],
                weight: match importance {
                    Some(map) => map[offset + x] as nat,
                    None => FULL_WEIGHT as nat,
                },
            },
    )
}

/// What a histogram holds after the items of an image have been counted. If the settings ask
/// for more bits to be dropped than the histogram drops, it is built again with those bits
/// first; then the items are counted; then more bits are dropped as far as the histogram needs
/// it to fit.
pub open spec fn image_counted(before: HistogramView, attr_bits: int, items: Seq<Bucket>)
    -> HistogramView {
    let bits = larger(before.posterize_bits, attr_bits);
    let start = if bits > before.posterize_bits {
        reposterized(before.buckets, bits)
    } else {
        before.buckets
    };
    let counted = accumulated(start, items, bits);
    HistogramView {
        posterize_bits: fitting_bits(counted, bits, before.max_histogram_entries),
        max_histogram_entries: before.max_histogram_entries,
        buckets: fitting_buckets(counted, bits, before.max_histogram_entries),
    }
}

/// Whether `after` is what a histogram holds once the pixels of an image have been counted,
/// see [`image_counted`]. The total weight has then grown by just the weights
/// of the pixels, however many bits had to be dropped.
pub open spec fn counts_image(
    before: HistogramView,
    attr_bits: int,
    importance: Option<Seq<u8>>,
    pixels: Seq<RGBA>,
    after: HistogramView,
) -> bool {
    &&& after == image_counted(before, attr_bits, items_of_pixels(pixels, importance))
    &&& total_weight(after.buckets) == total_weight(before.buckets) + total_weight(
        items_of_pixels(pixels, importance),
    )
}

/// The rows of an image after a histogram has counted it: the source is let go of if all rows
/// had been pulled.
pub open spec fn rows_after_counting(v: RowsView) -> RowsView {
    if v.cached is Some {
        RowsView {
            source: SourceView::Pixels {
                rows: Seq::empty(),
                rows_owned: true,
                pixels: None,
                pixels_owned: false,
            },
            ..v
        }
    } else {
        v
    }
}

/// The key of a color.
fn key_of(c: RGBA) -> (k: u32)
    ensures
        k == color_key(c),
{
    (c.r as u32) + 0x100 * (c.g as u32) + 0x1_0000 * (c.b as u32) + 0x100_0000 * (c.a as u32)
}

/// Clears the `bits` least significant bits of a channel.
fn posterize_channel(x: u8, bits: u8) -> (r: u8)
    ensures
        r == posterized_channel(x, bits as int),
{
    let step: u8 = if bits == 0 {
        1
    } else if bits == 1 {
        2
    } else if bits == 2 {
        4
    } else if bits == 3 {
        8
    } else {
        16
    };
    x - x % step
}

/// Clears the `bits` least significant bits of every channel of a color.
pub fn posterize(c: RGBA, bits: u8) -> (r: RGBA)
    ensures
        r == posterized(c, bits as int),
{
    RGBA {
        r: posterize_channel(c.r, bits),
        g: posterize_channel(c.g, bits),
        b: posterize_channel(c.b, bits),
        a: posterize_channel(c.a, bits),
    }
}

impl Histogram {
    /// The entries can be found by their keys, and the weight kept alongside is their total.
    pub closed spec fn index_ok(&self) -> bool {
        &&& self.total == total_weight(buckets_of(self.entries@))
        &&& forall|i: int|
            0 <= i < self.entries@.len() ==> {
                let k = color_key((#[trigger] self.entries@[i]).color) as u32;
                self.index@.contains_key(k) && self.index@[k] == i
            }
        &&& forall|k: u32| #[trigger]
            self.index@.contains_key(k) ==> self.index@[k] < self.entries@.len() && color_key(
                self.entries@[self.index@[k] as int].color,
            ) == k
    }

    /// Validity, see [`histogram_wf`].
    pub open spec fn wf(&self) -> bool {
        &&& histogram_wf(self@)
        &&& self.index_ok()
    }

    /// An empty histogram for the settings of a quantization: it drops the bits and holds up
    /// to the number of colors that the settings ask for.
    pub fn new(attr: &Attributes) -> (hist: Histogram)
        requires
            attr.wf(),
        ensures
            hist.wf(),
            hist@ == (HistogramView {
                posterize_bits: larger(
                    attr@.min_posterization,
                    speed_min_posterization_input(attr@.speed),
                ),
                max_histogram_entries: speed_max_histogram_entries(attr@.speed),
                buckets: Seq::empty(),
            }),
    {
        let hist = Histogram {
            posterize_bits: attr.posterize_bits(),
            max_histogram_entries: attr.max_histogram_entries(),
            total: 0,
            entries: Vec::new(),
            index: HashMap::new(),
        };
        assert(buckets_of(hist.entries@) =~= Seq::<Bucket>::empty());
        hist
    }

    /// Bits that are dropped from every channel.
    pub fn posterize_bits(&self) -> (bits: u8)
        ensures
            bits == self@.posterize_bits,
    {
        self.posterize_bits
    }

    /// Number of distinct colors.
    pub fn len(&self) -> (n: usize)
        ensures
            n == self@.buckets.len(),
    {
        self.entries.len()
    }

    /// The distinct colors with their weights, in the order in which they were first seen.
    pub fn entries(&self) -> (entries: &[HistEntry])
        ensures
            buckets_of(entries@) == self@.buckets,
    {
        self.entries.as_slice()
    }

    /// The weight of all pixels that were counted, in units of 1/255 of a pixel.
    pub fn total_weight(&self) -> (total: u64)
        requires
            self.wf(),
        ensures
            total == total_weight(self@.buckets),
    {
        self.total
    }

    /// Counts `weight` for a color.
    fn add_color(&mut self, color: RGBA, weight: u64)
        requires
            old(self).wf(),
            total_weight(old(self)@.buckets) + weight <= u64::MAX,
        ensures
            final(self).wf(),
            final(self)@ == (HistogramView {
                buckets: added(
                    old(self)@.buckets,
                    posterized(color, old(self)@.posterize_bits),
                    weight as nat,
                ),
                ..old(self)@
            }),
    {
        broadcast use vstd::std_specs::hash::group_hash_axioms;

        if weight == 0 {
            return ;
        }
        let c = posterize(color, self.posterize_bits);
        let k = key_of(c);
        let ghost before = buckets_of(self.entries@);
        proof {
            lemma_posterized_again(color, self.posterize_bits as int, self.posterize_bits as int);
            lemma_added_total(before, c, weight as nat);
            lemma_added_valid(before, c, weight as nat, self.posterize_bits as int);
        }
        let found: Option<usize> = match self.index.get(&k) {
            Some(i) => Some(*i),
            None => None,
        };
        match found {
            Some(i) => {
                let e = self.entries[i];
                proof {
                    lemma_color_key_injective(e.color, c);
                    assert(before[i as int].color == c);
                    let j = position(before, c);
                    assert(j == i);
                    lemma_weight_in_total(before, i as int);
                }
                self.entries.set(i, HistEntry { color: c, weight: e.weight + weight });
                assert(buckets_of(self.entries@) =~= added(before, c, weight as nat));
            },
            None => {
                proof {
                    if has_color(before, c) {
                        let j = position(before, c);
                        assert(self.entries@[j].color == c);
                    }
                }
                let at: usize = self.entries.len();
                self.index.insert(k, at);
                self.entries.push(HistEntry { color: c, weight });
                assert(buckets_of(self.entries@) =~= added(before, c, weight as nat));
                assert forall|i: int| 0 <= i < self.entries@.len() implies {
                    let k2 = color_key((#[trigger] self.entries@[i]).color) as u32;
                    self.index@.contains_key(k2) && self.index@[k2] == i
                } by {
                    if i < at {
                        assert(self.entries@[i] == old(self).entries@[i]);
                    }
                }
            },
        }
        self.total = self.total + weight;
    }

    /// Builds the histogram again with `bits` bits dropped.
    fn reposterize(&mut self, bits: u8)
        requires
            old(self).wf(),
            bits <= 4,
        ensures
            final(self).wf(),
            final(self)@ == (HistogramView {
                posterize_bits: bits as int,
                buckets: reposterized(old(self)@.buckets, bits as int),
                ..old(self)@
            }),
    {
        let mut fresh = Histogram {
            posterize_bits: bits,
            max_histogram_entries: self.max_histogram_entries,
            total: 0,
            entries: Vec::new(),
            index: HashMap::new(),
        };
        let ghost items = buckets_of(self.entries@);
        assert(buckets_of(fresh.entries@) =~= Seq::<Bucket>::empty());
        assert(items.take(0) =~= Seq::<Bucket>::empty());
        let mut i: usize = 0;
        while i < self.entries.len()
            invariant
                i <= self.entries@.len(),
                items == buckets_of(self.entries@),
                total_weight(items) <= u64::MAX,
                fresh.wf(),
                fresh@.posterize_bits == bits,
                fresh@.max_histogram_entries == self.max_histogram_entries,
                fresh@.buckets == accumulated(Seq::empty(), items.take(i as int), bits as int),
            decreases self.entries@.len() - i,
        {
            let e = self.entries[i];
            proof {
                lemma_take_total(items, i as int);
                lemma_take_total(items, i + 1);
                lemma_accumulated_total(Seq::empty(), items.take(i as int), bits as int);
                assert(items.take(i + 1).drop_last() =~= items.take(i as int));
            }
            fresh.add_color(e.color, e.weight);
            i += 1;
        }
        assert(items.take(i as int) =~= items);
        *self = fresh;
    }

    /// Drops one more bit as long as the histogram holds more colors than it may and drops
    /// fewer than 4 bits.
    fn fit(&mut self)
        requires
            old(self).wf(),
        ensures
            final(self).wf(),
            final(self)@ == (HistogramView {
                posterize_bits: fitting_bits(
                    old(self)@.buckets,
                    old(self)@.posterize_bits,
                    old(self)@.max_histogram_entries,
                ),
                buckets: fitting_buckets(
                    old(self)@.buckets,
                    old(self)@.posterize_bits,
                    old(self)@.max_histogram_entries,
                ),
                ..old(self)@
            }),
    {
        while self.entries.len() > self.max_histogram_entries as usize && self.posterize_bits < 4
            invariant
                self.wf(),
                self@.max_histogram_entries == old(self)@.max_histogram_entries,
                fitting_bits(self@.buckets, self@.posterize_bits, self@.max_histogram_entries)
                    == fitting_bits(
                    old(self)@.buckets,
                    old(self)@.posterize_bits,
                    old(self)@.max_histogram_entries,
                ),
                fitting_buckets(self@.buckets, self@.posterize_bits, self@.max_histogram_entries)
                    == fitting_buckets(
                    old(self)@.buckets,
                    old(self)@.posterize_bits,
                    old(self)@.max_histogram_entries,
                ),
            decreases 4 - self.posterize_bits,
        {
            let bits: u8 = self.posterize_bits + 1;
            self.reposterize(bits);
        }
    }

    /// Counts colors given by hand, each for as many pixels as its count says, and then drops
    /// more bits as far as the histogram needs it to fit.
    ///
    /// Fails with `LIQ_OUT_OF_MEMORY`, and changes nothing, when the total weight could no
    /// longer be counted in 64 bits.
    pub fn add_colors(&mut self, entries: &[HistogramEntry]) -> (r: Result<(), liq_error>)
        requires
            old(self).wf(),
        ensures
            final(self).wf(),
            match r {
                Ok(_) => {
                    let counted = accumulated(
                        old(self)@.buckets,
                        items_of(entries@),
                        old(self)@.posterize_bits,
                    );
                    &&& total_weight(old(self)@.buckets) + total_weight(items_of(entries@))
                        <= u64::MAX
                    &&& total_weight(final(self)@.buckets) == total_weight(old(self)@.buckets)
                        + total_weight(items_of(entries@))
                    &&& final(self)@ == (HistogramView {
                        posterize_bits: fitting_bits(
                            counted,
                            old(self)@.posterize_bits,
                            old(self)@.max_histogram_entries,
                        ),
                        buckets: fitting_buckets(
                            counted,
                            old(self)@.posterize_bits,
                            old(self)@.max_histogram_entries,
                        ),
                        ..old(self)@
                    })
                },
                Err(e) => {
                    &&& e == liq_error::LIQ_OUT_OF_MEMORY
                    &&& total_weight(old(self)@.buckets) + total_weight(items_of(entries@))
                        > u64::MAX
                    &&& final(self)@ == old(self)@
                },
            },
    {
        let ghost items = items_of(entries@);
        let ghost start = self@.buckets;
        let ghost bits = self@.posterize_bits;
        let mut room: u64 = u64::MAX - self.total;
        let mut n: usize = 0;
        while n < entries.len()
            invariant
                n <= entries@.len(),
                items == items_of(entries@),
                self.wf(),
                *self == *old(self),
                room == u64::MAX - self.total - total_weight(items.take(n as int)),
            decreases entries@.len() - n,
        {
            let weight: u64 = (entries[n].count as u64) * FULL_WEIGHT;
            proof {
                lemma_take_total(items, n as int);
            }
            if weight > room {
                proof {
                    lemma_take_total(items, n + 1);
                }
                return Err(liq_error::LIQ_OUT_OF_MEMORY);
            }
            room = room - weight;
            n += 1;
        }
        assert(items.take(n as int) =~= items);
        assert(items.take(0) =~= Seq::<Bucket>::empty());
        let mut i: usize = 0;
        while i < entries.len()
            invariant
                i <= entries@.len(),
                items == items_of(entries@),
                start == old(self)@.buckets,
                bits == old(self)@.posterize_bits,
                total_weight(start) + total_weight(items) <= u64::MAX,
                self.wf(),
                self@ == (HistogramView {
                    buckets: accumulated(start, items.take(i as int), bits),
                    ..old(self)@
                }),
            decreases entries@.len() - i,
        {
            let e = entries[i];
            proof {
                lemma_take_total(items, i as int);
                lemma_take_total(items, i + 1);
                lemma_accumulated_total(start, items.take(i as int), bits);
                assert(items.take(i + 1).drop_last() =~= items.take(i as int));
            }
            self.add_color(e.color, (e.count as u64) * FULL_WEIGHT);
            i += 1;
        }
        assert(items.take(i as int) =~= items);
        proof {
            lemma_accumulated_total(start, items, bits);
            lemma_fitting_total(self@.buckets, bits, self@.max_histogram_entries);
        }
        self.fit();
        Ok(())
    }

    /// Counts the pixels of a row, each with its importance, which is found `offset` values
    /// into the map, or in full where there is no map.
    fn add_row(&mut self, row: &[RGBA], map: Option<&[u8]>, offset: usize)
        requires
            old(self).wf(),
            map matches Some(m) ==> offset + row@.len() <= m@.len(),
            total_weight(old(self)@.buckets) + FULL_WEIGHT * row@.len() <= u64::MAX,
        ensures
            final(self).wf(),
            final(self)@ == (HistogramView {
                buckets: accumulated(
                    old(self)@.buckets,
                    row_items(
                        row@,
                        match map {
                            Some(m) => Some(m@),
                            None => None,
                        },
                        offset as int,
                    ),
                    old(self)@.posterize_bits,
                ),
                ..old(self)@
            }),
    {
        let ghost start = self@.buckets;
        let ghost bits = self@.posterize_bits;
        let ghost items = row_items(
            row@,
            match map {
                Some(m) => Some(m@),
                None => None,
            },
            offset as int,
        );
        proof {
            assert(items.take(0) =~= Seq::<Bucket>::empty());
            lemma_items_total(items);
        }
        let mut x: usize = 0;
        while x < row.len()
            invariant
                x <= row@.len(),
                self.wf(),
                map matches Some(m) ==> offset + row@.len() <= m@.len(),
                items == row_items(
                    row@,
                    match map {
                        Some(m) => Some(m@),
                        None => None,
                    },
                    offset as int,
                ),
                total_weight(start) + total_weight(items) <= u64::MAX,
                self@ == (HistogramView {
                    buckets: accumulated(start, items.take(x as int), bits),
                    ..old(self)@
                }),
                bits == old(self)@.posterize_bits,
            decreases row@.len() - x,
        {
            let boost: u64 = match map {
                Some(m) => {
                    assert(m@.len() == m.len());
                    m[offset + x] as u64
                },
                None => FULL_WEIGHT,
            };
            proof {
                lemma_take_total(items, x as int);
                lemma_take_total(items, x + 1);
                lemma_accumulated_total(start, items.take(x as int), bits);
                assert(items.take(x + 1).drop_last() =~= items.take(x as int));
            }
            self.add_color(row[x], boost);
            x += 1;
        }
        assert(items.take(x as int) =~= items);
    }

    /// Counts the pixels of an image, each with its importance where the image has an
    /// importance map and in full where it has none, and then drops more bits as far as the
    /// histogram needs it to fit. An image that holds all of its rows lets go of their source
    /// afterwards.
    ///
    /// The rows of a buffer of pixels are counted as they lie in the buffer; the rows of a
    /// callback are counted as the callback hands them out, fitted to the width of the image.
    ///
    /// Fails with `LIQ_UNSUPPORTED` when the pixels of the image have been released, and with
    /// `LIQ_OUT_OF_MEMORY` when the total weight could no longer be counted in 64 bits if
    /// every pixel counted in full. Nothing changes then.
    pub fn add_image(&mut self, attr: &Attributes, image: &mut Image<'_>) -> (r: Result<
        (),
        liq_error,
    >)
        requires
            old(self).wf(),
            attr.wf(),
            old(image).wf(),
        ensures
            final(self).wf(),
            final(image).wf(),
            final(image).importance() == old(image).importance(),
            match r {
                Ok(_) => {
                    let v = old(image)@;
                    &&& !source_without_rows(v.source)
                    &&& total_weight(old(self)@.buckets) + FULL_WEIGHT * (v.width * v.height)
                        <= u64::MAX
                    &&& final(image)@ == rows_after_counting(v)
                    &&& counts_image(
                        old(self)@,
                        larger(attr@.min_posterization, speed_min_posterization_input(attr@.speed)),
                        old(image).importance(),
                        source_image(v.source, v.width, v.height),
                        final(self)@,
                    )
                },
                Err(e) => {
                    let v = old(image)@;
                    &&& final(self)@ == old(self)@
                    &&& final(image)@ == v
                    &&& if source_without_rows(v.source) {
                        e == liq_error::LIQ_UNSUPPORTED
                    } else {
                        e == liq_error::LIQ_OUT_OF_MEMORY && total_weight(old(self)@.buckets)
                            + FULL_WEIGHT * (v.width * v.height) > u64::MAX
                    }
                },
            },
    {
        let width: usize = image.width();
        let height: usize = image.height();
        let ghost v = image@;
        let ghost before = self@;
        let ghost attr_bits = larger(
            attr@.min_posterization,
            speed_min_posterization_input(attr@.speed),
        );
        let ghost importance = image.importance();
        proof {
            assert(v.width * v.height <= usize::MAX);
        }
        let pixels: usize = width * height;
        let ghost mut all: Seq<RGBA> = Seq::empty();
        {
            let px = image.rows();
            let map = image.importance_map();
            let it = match px.rgba_rows_iter() {
                Ok(it) => it,
                Err(e) => {
                    return Err(e);
                },
            };
            let most: u64 = match (pixels as u64).checked_mul(FULL_WEIGHT) {
                Some(m) => m,
                None => {
                    return Err(liq_error::LIQ_OUT_OF_MEMORY);
                },
            };
            if most > u64::MAX - self.total {
                return Err(liq_error::LIQ_OUT_OF_MEMORY);
            }
            let bits: u8 = attr.posterize_bits();
            if bits > self.posterize_bits {
                proof {
                    lemma_reposterized_total(self@.buckets, bits as int);
                }
                self.reposterize(bits);
            }
            let ghost start = self@.buckets;
            let ghost bits = self@.posterize_bits;
            proof {
                assert(items_of_pixels(all, importance) =~= Seq::<Bucket>::empty());
                assert(0 * width == 0) by (nonlinear_arith);
                assert(source_rows(v.source, v.width, 0) =~= Seq::<Seq<RGBA>>::empty());
            }
            let mut temp_row = temp_buf(width);
            let mut y: usize = 0;
            while y < height
                invariant
                    y <= height,
                    self.wf(),
                    rows_wf(v),
                    it.rows() == v,
                    width == v.width,
                    height == v.height,
                    pixels == width * height,
                    !source_without_rows(v.source),
                    importance == image.importance(),
                    match map {
                        Some(m) => importance == Some(m@) && m@.len() == width * height,
                        None => importance is None,
                    },
                    self@.posterize_bits == bits,
                    self@.max_histogram_entries == before.max_histogram_entries,
                    total_weight(start) + FULL_WEIGHT * pixels <= u64::MAX,
                    total_weight(self@.buckets) <= total_weight(start) + FULL_WEIGHT * (y * width),
                    all.len() == y * width,
                    all == source_rows(v.source, v.width, y as nat).flatten(),
                    self@.buckets == accumulated(start, items_of_pixels(all, importance), bits),
                decreases height - y,
            {
                let row = it.row_rgba(&mut temp_row, y);
                proof {
                    lemma_pixel_index(width as int, height as int, y as int, width as int);
                    assert(FULL_WEIGHT * (y * width + width) == FULL_WEIGHT * (y * width)
                        + FULL_WEIGHT * width) by (nonlinear_arith);
                    assert(FULL_WEIGHT * (y * width + width) <= FULL_WEIGHT * pixels)
                        by (nonlinear_arith)
                        requires
                            y * width + width <= height * width,
                            pixels == width * height,
                    ;
                }
                let offset: usize = y * width;
                let ghost counted = row_items(row@, importance, offset as int);
                proof {
                    lemma_items_total(counted);
                    lemma_accumulated_total(self@.buckets, counted, bits);
                    assert(items_of_pixels(all + row@, importance) =~= items_of_pixels(
                        all,
                        importance,
                    ) + counted);
                    lemma_accumulated_concat(
                        start,
                        items_of_pixels(all, importance),
                        counted,
                        bits,
                    );
                    let done = source_rows(v.source, v.width, y as nat);
                    let this = source_row(v.source, v.width, y as int);
                    assert(source_rows(v.source, v.width, (y + 1) as nat) =~= done.push(this));
                    done.lemma_flatten_push(this);
                    all = all + row@;
                }
                self.add_row(row, map, offset);
                y += 1;
            }
            proof {
                assert(FULL_WEIGHT * (height * width) == FULL_WEIGHT * (v.width * v.height)
                    && height * width == v.width * v.height) by (nonlinear_arith)
                    requires
                        height == v.height,
                        width == v.width,
                ;
            }
        }
        self.fit();
        image.rows_mut().free_histogram_inputs();
        proof {
            lemma_image_counted_total(before, attr_bits, items_of_pixels(all, importance));
            assert(counts_image(before, attr_bits, importance, all, self@));
        }
        Ok(())
    }
}

/// Two colors with the same key are the same color.
pub proof fn lemma_color_key_injective(a: RGBA, b: RGBA)
    requires
        color_key(a) == color_key(b),
    ensures
        a == b,
{
}

/// Posterizing twice by the same bits is posterizing once, and a color posterized by more bits
/// stays as it is when fewer bits are dropped.
pub proof fn lemma_posterized_again(c: RGBA, bits: int, more: int)
    requires
        0 <= bits <= more <= 4,
    ensures
        posterized(posterized(c, more), bits) == posterized(c, more),
        posterized(posterized(c, bits), more) == posterized(c, more),
{
    lemma_posterized_channel_again(c.r, bits, more);
    lemma_posterized_channel_again(c.g, bits, more);
    lemma_posterized_channel_again(c.b, bits, more);
    lemma_posterized_channel_again(c.a, bits, more);
}

proof fn lemma_posterized_channel_again(x: u8, bits: int, more: int)
    requires
        0 <= bits <= more <= 4,
    ensures
        posterized_channel(posterized_channel(x, more), bits) == posterized_channel(x, more),
        posterized_channel(posterized_channel(x, bits), more) == posterized_channel(x, more),
{
    let xi = x as int;
    let hi = xi - xi % posterize_step(more);
    let lo = xi - xi % posterize_step(bits);
    assert(0 <= hi <= lo <= xi);
    if more == 0 {
    } else if more == 1 {
        assert(hi % 2 == 0);
        assert(lo - lo % 2 == hi);
    } else if more == 2 {
        assert(hi % 4 == 0 && hi % 2 == 0);
        assert(lo - lo % 4 == hi);
    } else if more == 3 {
        assert(hi % 8 == 0 && hi % 4 == 0 && hi % 2 == 0);
        assert(lo - lo % 8 == hi);
    } else {
        assert(hi % 16 == 0 && hi % 8 == 0 && hi % 4 == 0 && hi % 2 == 0);
        assert(lo - lo % 16 == hi);
    }
}

/// Counting a weight for a color adds just that weight to the total.
pub proof fn lemma_added_total(buckets: Seq<Bucket>, color: RGBA, weight: nat)
    ensures
        total_weight(added(buckets, color, weight)) == total_weight(buckets) + weight,
{
    if weight == 0 {
    } else if has_color(buckets, color) {
        let i = position(buckets, color);
        lemma_update_total(buckets, i, Bucket { color, weight: buckets[i].weight + weight });
    } else {
        let after = buckets.push(Bucket { color, weight });
        assert(after.drop_last() =~= buckets);
    }
}

/// Replacing a bucket changes the total by the difference of the weights.
proof fn lemma_update_total(buckets: Seq<Bucket>, i: int, bucket: Bucket)
    requires
        0 <= i < buckets.len(),
    ensures
        total_weight(buckets.update(i, bucket)) == total_weight(buckets) - buckets[i].weight
            + bucket.weight,
    decreases buckets.len(),
{
    let after = buckets.update(i, bucket);
    if i == buckets.len() - 1 {
        assert(after.drop_last() =~= buckets.drop_last());
    } else {
        lemma_update_total(buckets.drop_last(), i, bucket);
        assert(after.drop_last() =~= buckets.drop_last().update(i, bucket));
    }
}

/// Counting items adds just their weights to the total.
pub proof fn lemma_accumulated_total(buckets: Seq<Bucket>, items: Seq<Bucket>, bits: int)
    ensures
        total_weight(accumulated(buckets, items, bits)) == total_weight(buckets) + total_weight(
            items,
        ),
    decreases items.len(),
{
    if items.len() > 0 {
        lemma_accumulated_total(buckets, items.drop_last(), bits);
        lemma_added_total(
            accumulated(buckets, items.drop_last(), bits),
            posterized(items.last().color, bits),
            items.last().weight,
        );
    }
}

/// The total weight of a histogram stays the same when it is built again with other bits
/// dropped.
pub proof fn lemma_reposterized_total(buckets: Seq<Bucket>, bits: int)
    ensures
        total_weight(reposterized(buckets, bits)) == total_weight(buckets),
{
    lemma_accumulated_total(Seq::empty(), buckets, bits);
}

/// The total weight of a histogram is the same however many more bits have to be dropped until
/// it fits.
pub proof fn lemma_fitting_total(buckets: Seq<Bucket>, bits: int, max_entries: int)
    ensures
        total_weight(fitting_buckets(buckets, bits, max_entries)) == total_weight(buckets),
    decreases 4 - bits,
{
    if bits >= 4 || buckets.len() <= max_entries {
    } else {
        lemma_reposterized_total(buckets, bits + 1);
        lemma_fitting_total(reposterized(buckets, bits + 1), bits + 1, max_entries);
    }
}

/// However many bits have to be dropped while an image is counted, the total weight of the
/// histogram grows by just the weights of the pixels of the image.
pub proof fn lemma_image_counted_total(before: HistogramView, attr_bits: int, items: Seq<Bucket>)
    ensures
        total_weight(image_counted(before, attr_bits, items).buckets) == total_weight(
            before.buckets,
        ) + total_weight(items),
{
    let bits = larger(before.posterize_bits, attr_bits);
    let start = if bits > before.posterize_bits {
        reposterized(before.buckets, bits)
    } else {
        before.buckets
    };
    lemma_reposterized_total(before.buckets, bits);
    lemma_accumulated_total(start, items, bits);
    lemma_fitting_total(accumulated(start, items, bits), bits, before.max_histogram_entries);
}

/// Fitting a histogram never lowers the bits that it drops.
pub proof fn lemma_fitting_bits_grow(buckets: Seq<Bucket>, bits: int, max_entries: int)
    ensures
        fitting_bits(buckets, bits, max_entries) >= bits,
        bits <= 4 ==> fitting_bits(buckets, bits, max_entries) <= 4,
    decreases 4 - bits,
{
    if bits >= 4 || buckets.len() <= max_entries {
    } else {
        lemma_fitting_bits_grow(reposterized(buckets, bits + 1), bits + 1, max_entries);
    }
}

/// Counting a weight for a posterized color keeps the buckets apart and posterized.
pub proof fn lemma_added_valid(buckets: Seq<Bucket>, color: RGBA, weight: nat, bits: int)
    requires
        distinct_colors(buckets),
        all_posterized(buckets, bits),
        posterized(color, bits) == color,
    ensures
        distinct_colors(added(buckets, color, weight)),
        all_posterized(added(buckets, color, weight), bits),
        added(buckets, color, weight).len() >= buckets.len(),
{
    let after = added(buckets, color, weight);
    if weight == 0 {
    } else if has_color(buckets, color) {
        let i = position(buckets, color);
        assert forall|a: int, b: int| 0 <= a < b < after.len() implies (#[trigger] after[a]).color
            != (#[trigger] after[b]).color by {
            assert(after[a].color == buckets[a].color);
            assert(after[b].color == buckets[b].color);
        }
        assert forall|a: int| 0 <= a < after.len() implies posterized(
            (#[trigger] after[a]).color,
            bits,
        ) == after[a].color && after[a].weight > 0 by {
            assert(after[a].color == buckets[a].color);
        }
    } else {
        assert forall|a: int, b: int| 0 <= a < b < after.len() implies (#[trigger] after[a]).color
            != (#[trigger] after[b]).color by {
            if b < buckets.len() {
                assert(after[a] == buckets[a] && after[b] == buckets[b]);
            } else {
                assert(after[a] == buckets[a]);
            }
        }
        assert forall|a: int| 0 <= a < after.len() implies posterized(
            (#[trigger] after[a]).color,
            bits,
        ) == after[a].color && after[a].weight > 0 by {
            if a < buckets.len() {
                assert(after[a] == buckets[a]);
            }
        }
    }
}

/// Counting items keeps the buckets apart and posterized.
pub proof fn lemma_accumulated_valid(buckets: Seq<Bucket>, items: Seq<Bucket>, bits: int)
    requires
        0 <= bits <= 4,
        distinct_colors(buckets),
        all_posterized(buckets, bits),
    ensures
        distinct_colors(accumulated(buckets, items, bits)),
        all_posterized(accumulated(buckets, items, bits), bits),
    decreases items.len(),
{
    if items.len() > 0 {
        lemma_accumulated_valid(buckets, items.drop_last(), bits);
        lemma_posterized_again(items.last().color, bits, bits);
        lemma_added_valid(
            accumulated(buckets, items.drop_last(), bits),
            posterized(items.last().color, bits),
            items.last().weight,
            bits,
        );
    }
}

/// Counting items adds at most one bucket for each item.
pub proof fn lemma_accumulated_len(buckets: Seq<Bucket>, items: Seq<Bucket>, bits: int)
    ensures
        buckets.len() <= accumulated(buckets, items, bits).len() <= buckets.len() + items.len(),
    decreases items.len(),
{
    if items.len() > 0 {
        lemma_accumulated_len(buckets, items.drop_last(), bits);
    }
}

/// Counting two runs of items one after the other is counting them as one run.
pub proof fn lemma_accumulated_concat(
    buckets: Seq<Bucket>,
    first: Seq<Bucket>,
    second: Seq<Bucket>,
    bits: int,
)
    ensures
        accumulated(accumulated(buckets, first, bits), second, bits) == accumulated(
            buckets,
            first + second,
            bits,
        ),
    decreases second.len(),
{
    if second.len() == 0 {
        assert(first + second =~= first);
    } else {
        lemma_accumulated_concat(buckets, first, second.drop_last(), bits);
        assert((first + second).drop_last() =~= first + second.drop_last());
        assert((first + second).last() == second.last());
    }
}

/// Dropping more bits later gives the histogram that counting with those bits from the start
/// gives: the items can be counted again from scratch or the buckets can be merged, the
/// result is the same.
pub proof fn lemma_reposterized_is_recounted(
    buckets: Seq<Bucket>,
    items: Seq<Bucket>,
    bits: int,
    more: int,
)
    requires
        0 <= bits <= more <= 4,
        distinct_colors(buckets),
        all_posterized(buckets, bits),
    ensures
        reposterized(accumulated(buckets, items, bits), more) == accumulated(
            reposterized(buckets, more),
            items,
            more,
        ),
    decreases items.len(),
{
    if items.len() > 0 {
        let front = accumulated(buckets, items.drop_last(), bits);
        lemma_reposterized_is_recounted(buckets, items.drop_last(), bits, more);
        lemma_accumulated_valid(buckets, items.drop_last(), bits);
        lemma_reposterized_added(
            front,
            posterized(items.last().color, bits),
            items.last().weight,
            more,
        );
        lemma_posterized_again(items.last().color, bits, more);
    }
}

/// The histogram of pixels that had to drop more bits to fit is the histogram that counting
/// the pixels with those bits from the start gives.
pub proof fn lemma_fitting_is_recounted(items: Seq<Bucket>, bits: int, max_entries: int)
    requires
        0 <= bits <= 4,
    ensures
        fitting_buckets(accumulated(Seq::empty(), items, bits), bits, max_entries) == accumulated(
            Seq::empty(),
            items,
            fitting_bits(accumulated(Seq::empty(), items, bits), bits, max_entries),
        ),
    decreases 4 - bits,
{
    let counted = accumulated(Seq::empty(), items, bits);
    if bits >= 4 || counted.len() <= max_entries {
    } else {
        lemma_reposterized_is_recounted(Seq::empty(), items, bits, bits + 1);
        assert(reposterized(Seq::<Bucket>::empty(), bits + 1) =~= Seq::<Bucket>::empty());
        lemma_fitting_is_recounted(items, bits + 1, max_entries);
    }
}

/// No bucket weighs more than all buckets together.
proof fn lemma_weight_in_total(buckets: Seq<Bucket>, i: int)
    requires
        0 <= i < buckets.len(),
    ensures
        buckets[i].weight <= total_weight(buckets),
    decreases buckets.len(),
{
    if i < buckets.len() - 1 {
        lemma_weight_in_total(buckets.drop_last(), i);
    }
}

/// The weight of the first items is part of the weight of all items.
proof fn lemma_take_total(items: Seq<Bucket>, n: int)
    requires
        0 <= n <= items.len(),
    ensures
        total_weight(items.take(n)) <= total_weight(items),
        n < items.len() ==> total_weight(items.take(n + 1)) == total_weight(items.take(n))
            + items[n].weight,
    decreases items.len() - n,
{
    if n < items.len() {
        assert(items.take(n + 1).drop_last() =~= items.take(n));
        lemma_take_total(items, n + 1);
    } else {
        assert(items.take(n) =~= items);
    }
}

/// Items that weigh no more than `bound` each weigh no more than `bound` times their number
/// together.
pub proof fn lemma_bounded_total(items: Seq<Bucket>, bound: nat)
    requires
        forall|i: int| 0 <= i < items.len() ==> (#[trigger] items[i]).weight <= bound,
    ensures
        total_weight(items) <= bound * items.len(),
    decreases items.len(),
{
    if items.len() > 0 {
        lemma_bounded_total(items.drop_last(), bound);
        assert(bound * items.len() == bound * (items.len() - 1) + bound) by (nonlinear_arith);
    } else {
        assert(bound * 0 == 0) by (nonlinear_arith);
    }
}

/// No item of a row weighs more than a pixel that counts in full.
proof fn lemma_items_total(items: Seq<Bucket>)
    requires
        forall|i: int| 0 <= i < items.len() ==> (#[trigger] items[i]).weight <= FULL_WEIGHT,
    ensures
        total_weight(items) <= FULL_WEIGHT * items.len(),
{
    lemma_bounded_total(items, FULL_WEIGHT as nat);
}

/// Pixel `x` of row `y` lies at `y * width + x` among the pixels of an image, before the end
/// of its row.
proof fn lemma_pixel_index(width: int, height: int, y: int, x: int)
    by (nonlinear_arith)
    requires
        0 <= y < height,
        0 <= x <= width,
    ensures
        0 <= y * width <= y * width + x <= y * width + width <= height * width,
        width * height == height * width,
        (y + 1) * width == y * width + width,
{
}

/// In buckets of distinct colors, the bucket of a color is where that color is found.
proof fn lemma_position(buckets: Seq<Bucket>, i: int)
    requires
        distinct_colors(buckets),
        0 <= i < buckets.len(),
    ensures
        has_color(buckets, buckets[i].color),
        position(buckets, buckets[i].color) == i,
{
    let c = buckets[i].color;
    let j = position(buckets, c);
    assert(0 <= j < buckets.len() && buckets[j].color == c);
    if j < i {
        assert(buckets[j].color != buckets[i].color);
    } else if i < j {
        assert(buckets[i].color != buckets[j].color);
    }
}

/// Counting for the same color twice is counting both weights at once.
proof fn lemma_added_twice(buckets: Seq<Bucket>, color: RGBA, first: nat, second: nat)
    requires
        distinct_colors(buckets),
        first > 0,
    ensures
        added(added(buckets, color, first), color, second) == added(buckets, color, first + second),
{
    let once = added(buckets, color, first);
    if second > 0 {
        if has_color(buckets, color) {
            let i = position(buckets, color);
            assert(once[i].color == color);
            assert forall|a: int, b: int| 0 <= a < b < once.len() implies (#[trigger] once[a]).color
                != (#[trigger] once[b]).color by {
                assert(once[a].color == buckets[a].color && once[b].color == buckets[b].color);
            }
            lemma_position(once, i);
            assert(added(once, color, second) =~= added(buckets, color, first + second));
        } else {
            let n = buckets.len() as int;
            assert(once[n].color == color);
            assert forall|a: int, b: int| 0 <= a < b < once.len() implies (#[trigger] once[a]).color
                != (#[trigger] once[b]).color by {
                if b < n {
                    assert(once[a] == buckets[a] && once[b] == buckets[b]);
                } else {
                    assert(once[a] == buckets[a]);
                }
            }
            lemma_position(once, n);
            assert(added(once, color, second) =~= added(buckets, color, first + second));
        }
    }
}

/// Two weights counted for a color that has a bucket can be counted in either order.
proof fn lemma_added_both(buckets: Seq<Bucket>, color: RGBA, first: nat, second: nat)
    requires
        distinct_colors(buckets),
        has_color(buckets, color),
    ensures
        added(added(buckets, color, first), color, second) == added(
            added(buckets, color, second),
            color,
            first,
        ),
{
    let i = position(buckets, color);
    let a = added(buckets, color, first);
    let b = added(buckets, color, second);
    assert(distinct_colors(a)) by {
        assert forall|x: int, y: int| 0 <= x < y < a.len() implies (#[trigger] a[x]).color != (
        #[trigger] a[y]).color by {
            assert(a[x].color == buckets[x].color && a[y].color == buckets[y].color);
        }
    }
    assert(distinct_colors(b)) by {
        assert forall|x: int, y: int| 0 <= x < y < b.len() implies (#[trigger] b[x]).color != (
        #[trigger] b[y]).color by {
            assert(b[x].color == buckets[x].color && b[y].color == buckets[y].color);
        }
    }
    assert(a[i].color == color && b[i].color == color);
    lemma_position(a, i);
    lemma_position(b, i);
    assert(added(a, color, second) =~= added(b, color, first));
}

/// Counting for a color that has a bucket and counting for another color can be done in
/// either order.
proof fn lemma_added_commutes(buckets: Seq<Bucket>, p: RGBA, w: nat, q: RGBA, v: nat)
    requires
        distinct_colors(buckets),
        has_color(buckets, p),
        p != q,
    ensures
        added(added(buckets, p, w), q, v) == added(added(buckets, q, v), p, w),
{
    let i = position(buckets, p);
    let with_p = added(buckets, p, w);
    let with_q = added(buckets, q, v);
    assert(distinct_colors(with_p) && with_p.len() == buckets.len()) by {
        assert forall|a: int, b: int| 0 <= a < b < with_p.len() implies (
        #[trigger] with_p[a]).color != (#[trigger] with_p[b]).color by {
            assert(with_p[a].color == buckets[a].color && with_p[b].color == buckets[b].color);
        }
    }
    assert(has_color(with_p, q) == has_color(buckets, q)) by {
        if has_color(buckets, q) {
            let j = position(buckets, q);
            assert(with_p[j].color == q);
        }
        if has_color(with_p, q) {
            let j = position(with_p, q);
            assert(buckets[j].color == q);
        }
    }
    if v == 0 || w == 0 {
        if w == 0 {
        } else {
        }
    } else if has_color(buckets, q) {
        let j = position(buckets, q);
        assert(i != j);
        assert(with_p[j].color == q);
        lemma_position(with_p, j);
        assert(distinct_colors(with_q)) by {
            assert forall|a: int, b: int| 0 <= a < b < with_q.len() implies (
            #[trigger] with_q[a]).color != (#[trigger] with_q[b]).color by {
                assert(with_q[a].color == buckets[a].color && with_q[b].color == buckets[b].color);
            }
        }
        assert(with_q[i].color == p);
        lemma_position(with_q, i);
        assert(added(with_p, q, v) =~= added(with_q, p, w));
    } else {
        assert(distinct_colors(with_q)) by {
            assert forall|a: int, b: int| 0 <= a < b < with_q.len() implies (
            #[trigger] with_q[a]).color != (#[trigger] with_q[b]).color by {
                if b < buckets.len() {
                    assert(with_q[a] == buckets[a] && with_q[b] == buckets[b]);
                } else {
                    assert(with_q[a] == buckets[a]);
                }
            }
        }
        assert(with_q[i].color == p);
        lemma_position(with_q, i);
        assert(added(with_p, q, v) =~= added(with_q, p, w));
    }
}

/// A color that has a bucket keeps it when more is counted, and a color for which a weight is
/// counted has a bucket afterwards.
proof fn lemma_added_has(buckets: Seq<Bucket>, color: RGBA, weight: nat, other: RGBA)
    ensures
        has_color(buckets, other) ==> has_color(added(buckets, color, weight), other),
        weight > 0 ==> has_color(added(buckets, color, weight), color),
{
    let after = added(buckets, color, weight);
    if has_color(buckets, other) {
        let j = position(buckets, other);
        assert(after[j].color == other);
    }
    if weight > 0 {
        if has_color(buckets, color) {
            let i = position(buckets, color);
            assert(after[i].color == color);
        } else {
            assert(after[buckets.len() as int].color == color);
        }
    }
}

/// An item that weighs something has a bucket for its posterized color once the items have
/// been counted.
proof fn lemma_accumulated_has(buckets: Seq<Bucket>, items: Seq<Bucket>, bits: int, k: int)
    requires
        0 <= k < items.len(),
        items[k].weight > 0,
    ensures
        has_color(accumulated(buckets, items, bits), posterized(items[k].color, bits)),
    decreases items.len(),
{
    let front = accumulated(buckets, items.drop_last(), bits);
    let c = posterized(items[k].color, bits);
    if k < items.len() - 1 {
        lemma_accumulated_has(buckets, items.drop_last(), bits, k);
        lemma_added_has(front, posterized(items.last().color, bits), items.last().weight, c);
    } else {
        lemma_added_has(front, c, items.last().weight, c);
    }
}

/// Counting items of which one weighs more gives what counting the items and then the
/// difference for that one gives.
proof fn lemma_accumulated_heavier(items: Seq<Bucket>, i: int, more: nat, bits: int)
    requires
        0 <= bits <= 4,
        0 <= i < items.len(),
        items[i].weight > 0,
    ensures
        accumulated(
            Seq::empty(),
            items.update(i, Bucket { color: items[i].color, weight: items[i].weight + more }),
            bits,
        ) == added(
            accumulated(Seq::empty(), items, bits),
            posterized(items[i].color, bits),
            more,
        ),
    decreases items.len(),
{
    let heavier = items.update(
        i,
        Bucket { color: items[i].color, weight: items[i].weight + more },
    );
    let front = items.drop_last();
    let counted = accumulated(Seq::empty(), front, bits);
    let p = posterized(items[i].color, bits);
    lemma_accumulated_valid(Seq::empty(), front, bits);
    if i == items.len() - 1 {
        assert(heavier.drop_last() =~= front);
        lemma_added_twice(counted, p, items[i].weight, more);
    } else {
        let q = posterized(items.last().color, bits);
        let v = items.last().weight;
        assert(heavier.drop_last() =~= front.update(
            i,
            Bucket { color: items[i].color, weight: items[i].weight + more },
        ));
        lemma_accumulated_heavier(front, i, more, bits);
        lemma_accumulated_has(Seq::empty(), front, bits, i);
        if p == q {
            lemma_added_both(counted, p, more, v);
        } else {
            lemma_added_commutes(counted, p, more, q, v);
        }
    }
}

/// Building a histogram again after a weight was counted gives what counting the weight in
/// the histogram that was built again gives.
proof fn lemma_reposterized_added(buckets: Seq<Bucket>, color: RGBA, weight: nat, bits: int)
    requires
        0 <= bits <= 4,
        distinct_colors(buckets),
        forall|i: int| 0 <= i < buckets.len() ==> (#[trigger] buckets[i]).weight > 0,
    ensures
        reposterized(added(buckets, color, weight), bits) == added(
            reposterized(buckets, bits),
            posterized(color, bits),
            weight,
        ),
{
    if weight == 0 {
    } else if has_color(buckets, color) {
        let i = position(buckets, color);
        lemma_accumulated_heavier(buckets, i, weight, bits);
    } else {
        let after = buckets.push(Bucket { color, weight });
        assert(after.drop_last() =~= buckets);
    }
}

} // verus!
