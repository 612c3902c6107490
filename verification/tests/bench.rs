use imagequant::hist::HistEntry;
use imagequant::RGBA;

#[test]
fn kmeans_bench_input() {
    let (hist, palette) = imagequant::_unstable_internal_kmeans_bench();
    let mut expected: Vec<HistEntry> = Vec::new();
    let mut total = 0u64;
    for i in 0..10000u32 {
        let count = i.wrapping_mul(17) % 12345;
        let color =
            RGBA::new(i as u8, (i.wrapping_mul(7) >> 2) as u8, (i.wrapping_mul(11) >> 11) as u8, 255);
        total += count as u64 * 255;
        if count == 0 {
            continue;
        }
        match expected.iter_mut().find(|e| e.color == color) {
            Some(e) => e.weight += count as u64 * 255,
            None => expected.push(HistEntry { color, weight: count as u64 * 255 }),
        }
    }
    assert_eq!(0, hist.posterize_bits());
    assert_eq!(&expected[..], hist.entries());
    assert_eq!(total, hist.total_weight());
    assert_eq!(HistEntry { color: RGBA::new(1, 1, 0, 255), weight: 17 * 255 }, hist.entries()[0]);
    assert_eq!(
        HistEntry { color: RGBA::new(15, 90, 53, 255), weight: 9498 * 255 },
        hist.entries()[hist.len() - 1]
    );

    assert_eq!(256, palette.len());
    assert_eq!(RGBA::new(7, 0, 0, 255), palette[0]);
    assert_eq!(RGBA::new(15, 8, 8, 255), palette[8]);
    assert_eq!(RGBA::new(255, 255, 255, 255), palette[255]);
    for (i, c) in palette.iter().enumerate() {
        let i = i as u8;
        assert_eq!(RGBA::new(i | 7, i, i, 255), *c);
    }
}

#[test]
fn kmeans_bench_input_is_the_same_each_time() {
    let (first, palette) = imagequant::_unstable_internal_kmeans_bench();
    let (second, again) = imagequant::_unstable_internal_kmeans_bench();
    assert_eq!(first.entries(), second.entries());
    assert_eq!(palette, again);
}
