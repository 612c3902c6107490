use imagequant::hist::posterize;
use imagequant::hist::HistEntry;
use imagequant::hist::Histogram;
use imagequant::liq_error;
use imagequant::rows::RowCallback;
use imagequant::rows::RowFn;
use imagequant::Attributes;
use imagequant::HistogramEntry;
use imagequant::Image;
use imagequant::RGBA;
use std::sync::atomic::AtomicUsize;
use std::sync::atomic::Ordering::SeqCst;
use std::sync::Arc;

fn diagonal(calls: Arc<AtomicUsize>) -> Box<dyn RowCallback> {
    Box::new(RowFn::new(move |_row: usize, width: usize| {
        calls.fetch_add(1, SeqCst);
        (0..width).map(|n| RGBA::new(n as u8, n as u8, n as u8, n as u8)).collect()
    }))
}

#[test]
fn posterize_clears_low_bits() {
    let c = RGBA::new(255, 128, 7, 1);
    assert_eq!(c, posterize(c, 0));
    assert_eq!(RGBA::new(254, 128, 6, 0), posterize(c, 1));
    assert_eq!(RGBA::new(252, 128, 4, 0), posterize(c, 2));
    assert_eq!(RGBA::new(248, 128, 0, 0), posterize(c, 3));
    assert_eq!(RGBA::new(240, 128, 0, 0), posterize(c, 4));
    for bits in 0..=4u8 {
        for x in 0..=255u8 {
            let p = posterize(RGBA::new(x, x, x, x), bits);
            assert_eq!((x >> bits) << bits, p.r);
            assert_eq!(p, posterize(p, bits));
        }
    }
}

#[test]
fn empty_histogram() {
    let mut attr = Attributes::new();
    let hist = Histogram::new(&attr);
    assert_eq!(0, hist.len());
    assert_eq!(0, hist.total_weight());
    assert_eq!(0, hist.posterize_bits());
    attr.set_speed(10);
    assert_eq!(1, Histogram::new(&attr).posterize_bits());
    attr.set_min_posterization(3);
    assert_eq!(3, Histogram::new(&attr).posterize_bits());
}

#[test]
fn colors_by_hand() {
    let attr = Attributes::new();
    let mut hist = Histogram::new(&attr);
    let red = RGBA::new(255, 0, 0, 255);
    let blue = RGBA::new(0, 0, 255, 255);
    hist.add_colors(&[
        HistogramEntry { color: red, count: 3 },
        HistogramEntry { color: blue, count: 1 },
        HistogramEntry { color: RGBA::new(1, 2, 3, 4), count: 0 },
        HistogramEntry { color: red, count: 10 },
    ])
    .unwrap();
    assert_eq!(
        &[HistEntry { color: red, weight: 13 * 255 }, HistEntry { color: blue, weight: 255 }],
        hist.entries()
    );
    assert_eq!(14 * 255, hist.total_weight());
    hist.add_colors(&[]).unwrap();
    assert_eq!(2, hist.len());
}

#[test]
fn colors_that_fall_together_are_merged() {
    let mut attr = Attributes::new();
    attr.set_min_posterization(2);
    let mut hist = Histogram::new(&attr);
    hist.add_colors(&[
        HistogramEntry { color: RGBA::new(255, 129, 3, 255), count: 1 },
        HistogramEntry { color: RGBA::new(252, 130, 0, 254), count: 2 },
        HistogramEntry { color: RGBA::new(251, 130, 0, 254), count: 4 },
    ])
    .unwrap();
    assert_eq!(
        &[
            HistEntry { color: RGBA::new(252, 128, 0, 252), weight: 3 * 255 },
            HistEntry { color: RGBA::new(248, 128, 0, 252), weight: 4 * 255 }
        ],
        hist.entries()
    );
}

#[test]
fn solid_white_has_one_color() {
    let attr = Attributes::new();
    let white = RGBA::new(255, 255, 255, 255);
    let pixels = vec![white; 100];
    let mut img = attr.new_image(&pixels, 10, 10).unwrap();
    let mut hist = Histogram::new(&attr);
    hist.add_image(&attr, &mut img).unwrap();
    assert_eq!(&[HistEntry { color: white, weight: 100 * 255 }], hist.entries());
}

#[test]
fn one_pixel_that_differs() {
    let mut attr = Attributes::new();
    attr.set_speed(5);
    attr.set_quality(70, 99);
    let white = RGBA::new(255, 255, 255, 255);
    let other = RGBA::new(0x55, 0x66, 0x77, 255);
    let mut pixels = vec![white; 100];
    pixels[0] = other;
    let mut img = attr.new_image(&pixels, 10, 10).unwrap();
    let mut hist = Histogram::new(&attr);
    hist.add_image(&attr, &mut img).unwrap();
    assert_eq!(
        &[HistEntry { color: other, weight: 255 }, HistEntry { color: white, weight: 99 * 255 }],
        hist.entries()
    );
}

#[test]
fn set_importance_map() {
    let liq = imagequant::new();
    let bitmap = &[RGBA::new(255, 0, 0, 255), RGBA::new(0u8, 0, 255, 255)];
    let mut img = liq.new_image(&bitmap[..], 2, 1).unwrap();
    let map = &[255, 0];
    img.set_importance_map(map).unwrap();
    let mut hist = Histogram::new(&liq);
    hist.add_image(&liq, &mut img).unwrap();
    assert_eq!(1, hist.len());
    assert_eq!(bitmap[0], hist.entries()[0].color);
    assert_eq!(&[HistEntry { color: bitmap[0], weight: 255 }], hist.entries());
}

#[test]
fn importance_is_the_weight() {
    let attr = Attributes::new();
    let a = RGBA::new(1, 1, 1, 255);
    let b = RGBA::new(2, 2, 2, 255);
    let bitmap = [a, b, b, a, a, b];
    let mut img = attr.new_image(&bitmap[..], 3, 2).unwrap();
    img.set_importance_map(&[10, 20, 30, 40, 0, 60]).unwrap();
    let mut hist = Histogram::new(&attr);
    hist.add_image(&attr, &mut img).unwrap();
    assert_eq!(
        &[HistEntry { color: a, weight: 50 }, HistEntry { color: b, weight: 110 }],
        hist.entries()
    );
    assert_eq!(160, hist.total_weight());
}

#[test]
fn importance_map_must_match_the_image() {
    let attr = Attributes::new();
    let bitmap = vec![RGBA::new(0, 0, 0, 0); 6];
    let mut img = attr.new_image(&bitmap, 3, 2).unwrap();
    assert!(img.importance_map().is_none());
    assert_eq!(Err(liq_error::LIQ_BUFFER_TOO_SMALL), img.set_importance_map(&[1, 2, 3, 4, 5]));
    assert_eq!(Err(liq_error::LIQ_VALUE_OUT_OF_RANGE), img.set_importance_map(&[1, 2, 3, 4, 5, 6, 7]));
    assert!(img.importance_map().is_none());
    assert_eq!(Ok(()), img.set_importance_map(&[1, 2, 3, 4, 5, 6]));
    assert_eq!(Some(&[1u8, 2, 3, 4, 5, 6][..]), img.importance_map());
    assert_eq!(Err(liq_error::LIQ_BUFFER_TOO_SMALL), img.set_importance_map(&[]));
    assert_eq!(Some(&[1u8, 2, 3, 4, 5, 6][..]), img.importance_map());
}

#[test]
fn histogram() {
    let attr = Attributes::new();
    let mut hist = Histogram::new(&attr);

    let bitmap1 = vec![RGBA { r: 0, g: 0, b: 0, a: 0 }; 1];
    let mut image1 = attr.new_image(&bitmap1[..], 1, 1).unwrap();
    hist.add_image(&attr, &mut image1).unwrap();

    let bitmap2 = vec![RGBA { r: 255, g: 255, b: 255, a: 255 }; 1];
    let mut image2 = attr.new_image(&bitmap2[..], 1, 1).unwrap();
    hist.add_image(&attr, &mut image2).unwrap();

    hist.add_colors(&[HistogramEntry { color: RGBA::new(255, 128, 255, 128), count: 10 }]).unwrap();

    assert_eq!(3, hist.len());
    assert_eq!(
        &[
            HistEntry { color: RGBA::new(0, 0, 0, 0), weight: 255 },
            HistEntry { color: RGBA::new(255, 255, 255, 255), weight: 255 },
            HistEntry { color: RGBA::new(255, 128, 255, 128), weight: 2550 }
        ],
        hist.entries()
    );
}

#[test]
fn callback_rows_are_counted_once() {
    let calls = Arc::new(AtomicUsize::new(0));
    let attr = Attributes::new();
    let mut img = Image::new_fn(diagonal(calls.clone()), 123, 5).unwrap();
    let mut hist = Histogram::new(&attr);
    hist.add_image(&attr, &mut img).unwrap();
    assert_eq!(5, calls.load(SeqCst));
    assert_eq!(123, hist.len());
    for (n, e) in hist.entries().iter().enumerate() {
        assert_eq!(HistEntry { color: RGBA::new(n as u8, n as u8, n as u8, n as u8), weight: 5 * 255 }, *e);
    }
}

#[test]
fn released_images_cannot_be_counted() {
    let attr = Attributes::new();
    let pixels = vec![RGBA::new(1, 2, 3, 4); 6];
    let mut img = attr.new_image(&pixels, 3, 2).unwrap();
    let mut hist = Histogram::new(&attr);
    hist.add_image(&attr, &mut img).unwrap();
    hist.add_image(&attr, &mut img).unwrap();
    assert_eq!(12 * 255, hist.total_weight());
    img.rows_mut().all_rows_f().unwrap();
    hist.add_image(&attr, &mut img).unwrap();
    assert_eq!(18 * 255, hist.total_weight());
    assert_eq!(Err(liq_error::LIQ_UNSUPPORTED), hist.add_image(&attr, &mut img));
    assert_eq!(18 * 255, hist.total_weight());
    assert_eq!(1, hist.len());
}

#[test]
fn settings_can_ask_for_more_bits_later() {
    let mut attr = Attributes::new();
    let mut hist = Histogram::new(&attr);
    hist.add_colors(&[
        HistogramEntry { color: RGBA::new(16, 0, 0, 255), count: 1 },
        HistogramEntry { color: RGBA::new(17, 0, 0, 255), count: 2 },
        HistogramEntry { color: RGBA::new(18, 0, 0, 255), count: 3 },
    ])
    .unwrap();
    assert_eq!(3, hist.len());
    attr.set_min_posterization(1);
    let pixels = [RGBA::new(19, 1, 0, 255)];
    let mut img = attr.new_image(&pixels[..], 1, 1).unwrap();
    hist.add_image(&attr, &mut img).unwrap();
    assert_eq!(1, hist.posterize_bits());
    assert_eq!(
        &[
            HistEntry { color: RGBA::new(16, 0, 0, 254), weight: 3 * 255 },
            HistEntry { color: RGBA::new(18, 0, 0, 254), weight: 4 * 255 }
        ],
        hist.entries()
    );
    assert_eq!(7 * 255, hist.total_weight());
}

#[test]
fn too_many_colors_drop_more_bits() {
    let mut attr = Attributes::new();
    attr.set_speed(10);
    let side = 1024usize;
    let mut pixels = Vec::with_capacity(side * side);
    for y in 0..side {
        for x in 0..side {
            pixels.push(RGBA::new(
                (x % 256) as u8,
                (y % 256) as u8,
                ((x / 256) * 64) as u8,
                (255 - (y / 256) * 2) as u8,
            ));
        }
    }
    let mut img = attr.new_image(&pixels, side, side).unwrap();
    let mut hist = Histogram::new(&attr);
    assert_eq!(1, hist.posterize_bits());
    hist.add_image(&attr, &mut img).unwrap();
    assert_eq!(2, hist.posterize_bits());
    assert_eq!(64 * 64 * 4 * 2, hist.len());
    assert_eq!((side * side) as u64 * 255, hist.total_weight());
    let mut sum = 0u64;
    for e in hist.entries() {
        assert_eq!(e.color, posterize(e.color, 2));
        assert_eq!(32 * 255, e.weight);
        sum += e.weight;
    }
    assert_eq!(hist.total_weight(), sum);
    assert_eq!(HistEntry { color: RGBA::new(0, 0, 0, 252), weight: 32 * 255 }, hist.entries()[0]);
}

#[test]
fn weight_that_cannot_be_counted() {
    let attr = Attributes::new();
    let mut hist = Histogram::new(&attr);
    let many = vec![HistogramEntry { color: RGBA::new(9, 9, 9, 9), count: u32::MAX }; 1 << 20];
    let each = (1u64 << 20) * (u32::MAX as u64) * 255;
    for n in 1..=16u64 {
        assert_eq!(Ok(()), hist.add_colors(&many));
        assert_eq!(n * each, hist.total_weight());
    }
    assert_eq!(Err(liq_error::LIQ_OUT_OF_MEMORY), hist.add_colors(&many));
    assert_eq!(16 * each, hist.total_weight());
    assert_eq!(1, hist.len());
    let pixels = vec![RGBA::new(9, 9, 9, 9); 1];
    let mut img = attr.new_image(&pixels, 1, 1).unwrap();
    assert_eq!(Ok(()), hist.add_image(&attr, &mut img));
    let room = u64::MAX - hist.total_weight();
    let fill = vec![HistogramEntry { color: RGBA::new(1, 1, 1, 1), count: u32::MAX }; (room / (u32::MAX as u64 * 255)) as usize];
    assert_eq!(Ok(()), hist.add_colors(&fill));
    let rest = (u64::MAX - hist.total_weight()) / 255;
    assert_eq!(Ok(()), hist.add_colors(&[HistogramEntry { color: RGBA::new(1, 1, 1, 1), count: rest as u32 }]));
    assert!(u64::MAX - hist.total_weight() < 255);
    assert_eq!(Err(liq_error::LIQ_OUT_OF_MEMORY), hist.add_image(&attr, &mut img));
    assert_eq!(2, hist.len());
}

#[test]
fn gradient_has_a_color_per_pixel() {
    let mut attr = Attributes::new();
    attr.set_max_colors(16);
    attr.set_speed(3);
    let pixels: Vec<RGBA> = (0..=255u8).map(|n| RGBA::new(n, n, n, 255)).collect();
    let mut img = attr.new_image(&pixels, 256, 1).unwrap();
    let mut hist = Histogram::new(&attr);
    hist.add_image(&attr, &mut img).unwrap();
    assert_eq!(256, hist.len());
    for (n, e) in hist.entries().iter().enumerate() {
        assert_eq!(HistEntry { color: pixels[n], weight: 255 }, *e);
    }
}

#[test]
fn dropping_bits_later_is_counting_again() {
    let colors: Vec<HistogramEntry> = (0..2000u32)
        .map(|i| HistogramEntry {
            color: RGBA::new((i * 37) as u8, (i * 11 >> 3) as u8, (i % 7) as u8 * 40, 255 - (i % 3) as u8),
            count: i % 5,
        })
        .collect();
    let pixel = [RGBA::new(3, 2, 1, 0)];
    for bits in 1..=4u8 {
        let mut late = Attributes::new();
        let mut merged = Histogram::new(&late);
        merged.add_colors(&colors).unwrap();
        late.set_min_posterization(bits);
        let mut img = late.new_image(&pixel[..], 1, 1).unwrap();
        merged.add_image(&late, &mut img).unwrap();

        let mut counted = Histogram::new(&late);
        counted.add_colors(&colors).unwrap();
        let mut img = late.new_image(&pixel[..], 1, 1).unwrap();
        counted.add_image(&late, &mut img).unwrap();

        assert_eq!(bits, merged.posterize_bits());
        assert_eq!(counted.entries(), merged.entries());
        assert_eq!(counted.total_weight(), merged.total_weight());
    }
}
