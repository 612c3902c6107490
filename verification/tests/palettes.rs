use imagequant::liq_error;
use imagequant::remap::compact_palette;
use imagequant::RGBA;

fn gray(n: u8) -> RGBA {
    RGBA::new(n, n, n, 255)
}

#[test]
fn unused_entries_are_dropped() {
    let palette = [gray(0), gray(1), gray(2), gray(3)];
    let mut indices = vec![1u8, 3, 1, 0, 1, 0];
    let c = compact_palette(&palette, &mut indices, false).unwrap();
    assert_eq!(vec![gray(1), gray(0), gray(3)], c.palette);
    assert_eq!(vec![1u8, 0, 3], c.order);
    assert_eq!(vec![0u8, 2, 0, 1, 0, 1], indices);
}

#[test]
fn entries_used_alike_keep_their_order() {
    let palette = [gray(0), gray(1), gray(2), gray(3)];
    let mut indices = vec![3u8, 2, 1, 0, 2];
    let c = compact_palette(&palette, &mut indices, true).unwrap();
    assert_eq!(vec![2u8, 0, 1, 3], c.order);
    assert_eq!(vec![gray(2), gray(0), gray(1), gray(3)], c.palette);
    assert_eq!(vec![3u8, 0, 2, 1, 0], indices);
}

#[test]
fn transparent_goes_last_when_asked() {
    let clear = RGBA::new(10, 20, 30, 0);
    let palette = [gray(0), clear, gray(2)];
    let before = vec![1u8, 1, 1, 2, 2, 0];
    let mut indices = before.clone();
    let c = compact_palette(&palette, &mut indices, true).unwrap();
    assert_eq!(vec![gray(2), gray(0), clear], c.palette);
    assert_eq!(vec![2u8, 2, 2, 0, 0, 1], indices);
    assert_eq!(clear, c.palette[c.palette.len() - 1]);

    let mut indices = before.clone();
    let c = compact_palette(&palette, &mut indices, false).unwrap();
    assert_eq!(vec![clear, gray(2), gray(0)], c.palette);
    assert_eq!(vec![0u8, 0, 0, 1, 1, 2], indices);
}

#[test]
fn unused_transparent_entry_is_dropped() {
    let clear = RGBA::new(0, 0, 0, 0);
    let palette = [clear, gray(1), gray(2)];
    let mut indices = vec![2u8, 1, 2];
    let c = compact_palette(&palette, &mut indices, true).unwrap();
    assert_eq!(vec![gray(2), gray(1)], c.palette);
    assert_eq!(vec![0u8, 1, 0], indices);
}

#[test]
fn first_of_two_transparent_entries_goes_last() {
    let clear = RGBA::new(0, 0, 0, 0);
    let glass = RGBA::new(255, 255, 255, 0);
    let palette = [clear, gray(1), glass];
    let mut indices = vec![2u8, 2, 0, 1, 1, 1];
    let c = compact_palette(&palette, &mut indices, true).unwrap();
    assert_eq!(vec![gray(1), clear, glass], c.palette);
    assert_eq!(vec![1u8, 0, 2], c.order);
    assert_eq!(vec![2u8, 2, 1, 0, 0, 0], indices);
}

#[test]
fn only_transparent() {
    let clear = RGBA::new(0, 0, 0, 0);
    let palette = [gray(7), clear];
    let mut indices = vec![1u8; 4];
    let c = compact_palette(&palette, &mut indices, true).unwrap();
    assert_eq!(vec![clear], c.palette);
    assert_eq!(vec![0u8; 4], indices);
}

#[test]
fn no_pixels_no_palette() {
    let palette = [gray(0), gray(1)];
    let mut indices: Vec<u8> = Vec::new();
    let c = compact_palette(&palette, &mut indices, true).unwrap();
    assert!(c.palette.is_empty());
    assert!(c.order.is_empty());
    let c = compact_palette(&[], &mut indices, false).unwrap();
    assert!(c.palette.is_empty());
}

#[test]
fn indices_outside_the_palette() {
    let palette = [gray(0), gray(1)];
    let mut indices = vec![0u8, 1, 2, 0];
    assert_eq!(
        Some(liq_error::LIQ_VALUE_OUT_OF_RANGE),
        compact_palette(&palette, &mut indices, false).err()
    );
    assert_eq!(vec![0u8, 1, 2, 0], indices);
    let mut indices = vec![0u8];
    assert_eq!(
        Some(liq_error::LIQ_VALUE_OUT_OF_RANGE),
        compact_palette(&[], &mut indices, false).err()
    );
    let long = vec![gray(1); 257];
    assert_eq!(
        Some(liq_error::LIQ_VALUE_OUT_OF_RANGE),
        compact_palette(&long, &mut indices, false).err()
    );
    assert_eq!(vec![0u8], indices);
}

#[test]
fn full_palette_keeps_every_pixel() {
    let palette: Vec<RGBA> = (0..256u32).map(|i| RGBA::new(i as u8, (i * 7) as u8, (i * 13) as u8, (i % 5) as u8 * 60)).collect();
    let before: Vec<u8> = (0..5000u32).map(|k| ((k * k + 3 * k) % 251) as u8).collect();
    for flag in [false, true] {
        let mut indices = before.clone();
        let c = compact_palette(&palette, &mut indices, flag).unwrap();
        assert_eq!(before.len(), indices.len());
        assert_eq!(c.palette.len(), c.order.len());
        assert!(!c.palette.is_empty() && c.palette.len() <= 256);
        let mut used = vec![0usize; c.palette.len()];
        for (k, i) in indices.iter().enumerate() {
            assert_eq!(palette[before[k] as usize], c.palette[*i as usize]);
            assert_eq!(before[k], c.order[*i as usize]);
            used[*i as usize] += 1;
        }
        let in_order = if flag { used.len() - 1 } else { used.len() };
        for i in 0..used.len() {
            assert!(used[i] > 0);
            if i + 1 < in_order {
                assert!(used[i] > used[i + 1] || (used[i] == used[i + 1] && c.order[i] < c.order[i + 1]));
            }
        }
        if flag {
            assert_eq!(0, c.palette[c.palette.len() - 1].a);
        }
    }
}
