use imagequant::liq_error;
use imagequant::rows::fit_row;
use imagequant::rows::temp_buf;
use imagequant::rows::DynamicRows;
use imagequant::rows::PixelsSource;
use imagequant::rows::RowCallback;
use imagequant::rows::RowFn;
use imagequant::seacow::liq_ownership;
use imagequant::seacow::SeaCow;
use imagequant::Image;
use imagequant::RGBA;
use std::sync::atomic::AtomicUsize;
use std::sync::atomic::Ordering::SeqCst;
use std::sync::Arc;

fn gray(calls: Arc<AtomicUsize>) -> Box<dyn RowCallback> {
    Box::new(RowFn::new(move |row: usize, width: usize| {
        calls.fetch_add(1, SeqCst);
        (0..width).map(|x| RGBA::new(x as u8, row as u8, 0, 255)).collect()
    }))
}

fn short() -> Box<dyn RowCallback> {
    Box::new(RowFn::new(|row: usize, _width: usize| vec![RGBA::new(row as u8, 1, 2, 3); row]))
}

fn numbered(n: usize) -> Vec<RGBA> {
    (0..n).map(|i| RGBA::new(i as u8, (i >> 8) as u8, (i >> 16) as u8, 255)).collect()
}

fn strided(pixels: &[RGBA], width: u32, height: u32, stride: usize) -> DynamicRows<'_, 'static> {
    let rows: Vec<usize> = (0..height as usize).map(|y| y * stride).collect();
    DynamicRows::new(
        width,
        height,
        PixelsSource::Pixels { rows: SeaCow::boxed(rows), pixels: Some(SeaCow::borrowed(pixels)) },
    )
}

#[test]
fn temp_buf_is_transparent() {
    assert_eq!(vec![RGBA::new(0, 0, 0, 0); 5], temp_buf(5));
    assert!(temp_buf(0).is_empty());
}

#[test]
fn fit_row_cuts_and_fills() {
    let row = vec![RGBA::new(1, 1, 1, 1), RGBA::new(2, 2, 2, 2), RGBA::new(3, 3, 3, 3)];
    assert_eq!(row, fit_row(row.clone(), 3));
    assert_eq!(vec![RGBA::new(1, 1, 1, 1), RGBA::new(2, 2, 2, 2)], fit_row(row.clone(), 2));
    assert_eq!(
        vec![
            RGBA::new(1, 1, 1, 1),
            RGBA::new(2, 2, 2, 2),
            RGBA::new(3, 3, 3, 3),
            RGBA::new(0, 0, 0, 0),
            RGBA::new(0, 0, 0, 0)
        ],
        fit_row(row.clone(), 5)
    );
    assert!(fit_row(row, 0).is_empty());
    assert_eq!(vec![RGBA::new(0, 0, 0, 0); 2], fit_row(Vec::new(), 2));
}

#[test]
fn rows_of_a_buffer() {
    let pixels = numbered(14);
    let px = strided(&pixels, 3, 3, 5);
    let it = px.rgba_rows_iter().unwrap();
    let mut temp = temp_buf(3);
    assert_eq!(&pixels[0..3], it.row_rgba(&mut temp, 0));
    assert_eq!(&pixels[5..8], it.row_rgba(&mut temp, 1));
    assert_eq!(&pixels[10..13], it.row_rgba(&mut temp, 2));
    let mut temp_f = temp_buf(3);
    assert_eq!(&pixels[5..8], it.row_f2(&mut temp, &mut temp_f, 1));
}

#[test]
fn all_rows_lie_row_after_row() {
    let pixels = numbered(14);
    let mut px = strided(&pixels, 3, 3, 5);
    let mut expected = Vec::new();
    expected.extend_from_slice(&pixels[0..3]);
    expected.extend_from_slice(&pixels[5..8]);
    expected.extend_from_slice(&pixels[10..13]);
    assert_eq!(&expected[..], px.all_rows_f().unwrap());
    assert_eq!(&expected[..], px.all_rows_f().unwrap());
}

#[test]
fn rows_iter_holds_the_whole_image() {
    let pixels = numbered(12);
    let mut px = strided(&pixels, 4, 3, 4);
    let mut temp = temp_buf(4);
    let mut it = px.rows_iter(&mut temp).unwrap();
    assert_eq!(&pixels[0..], it.row_f(&mut temp, 0));
    assert_eq!(&pixels[4..], it.row_f(&mut temp, 1));
    assert_eq!(&pixels[8..], it.row_f(&mut temp, 2));
    let mut temp_f = temp_buf(4);
    assert_eq!(&pixels[8..], it.row_f2(&mut temp, &mut temp_f, 2));
    assert_eq!(&pixels[4..8], it.row_rgba(&mut temp, 1));
}

#[test]
fn large_images_are_read_row_by_row() {
    let width = 2049usize;
    let height = 2048usize;
    let pixels = numbered(width * height);
    let mut px = strided(&pixels, width as u32, height as u32, width);
    let mut temp = temp_buf(width);
    {
        let mut it = px.rows_iter(&mut temp).unwrap();
        assert_eq!(&pixels[width * 7..width * 8], it.row_f(&mut temp, 7));
        assert_eq!(&pixels[0..width], it.row_f(&mut temp, 0));
    }
    px.free_histogram_inputs();
    assert!(px.rgba_rows_iter().is_ok());
    assert_eq!(width * height, px.all_rows_f().unwrap().len());
}

#[test]
fn images_at_the_limit_are_held_whole() {
    let width = 2048usize;
    let height = 2048usize;
    let pixels = numbered(width * height);
    let mut px = strided(&pixels, width as u32, height as u32, width);
    let mut temp = temp_buf(width);
    let mut it = px.rows_iter(&mut temp).unwrap();
    assert_eq!(&pixels[width * 2047..], it.row_f(&mut temp, 2047));
}

#[test]
fn released_pixels_are_unsupported() {
    let pixels = numbered(6);
    let mut px = strided(&pixels, 3, 2, 3);
    px.free_histogram_inputs();
    assert!(px.rgba_rows_iter().is_ok());
    px.all_rows_f().unwrap();
    px.free_histogram_inputs();
    assert_eq!(Some(liq_error::LIQ_UNSUPPORTED), px.rgba_rows_iter().err());
    assert_eq!(&pixels[..], px.all_rows_f().unwrap());
    let mut temp = temp_buf(3);
    let mut it = px.rows_iter(&mut temp).unwrap();
    assert_eq!(&pixels[3..], it.row_f(&mut temp, 1));
}

#[test]
fn callback_rows() {
    let calls = Arc::new(AtomicUsize::new(0));
    let mut img = Image::new_fn(gray(calls.clone()), 4, 3).unwrap();
    let mut temp = temp_buf(4);
    {
        let it = img.rows().rgba_rows_iter().unwrap();
        let row = it.row_rgba(&mut temp, 2);
        assert_eq!(
            &[
                RGBA::new(0, 2, 0, 255),
                RGBA::new(1, 2, 0, 255),
                RGBA::new(2, 2, 0, 255),
                RGBA::new(3, 2, 0, 255)
            ],
            row
        );
    }
    assert_eq!(1, calls.load(SeqCst));
    let all = img.rows_mut().all_rows_f().unwrap().to_vec();
    assert_eq!(12, all.len());
    assert_eq!(RGBA::new(3, 1, 0, 255), all[7]);
    assert_eq!(4, calls.load(SeqCst));
    img.rows_mut().all_rows_f().unwrap();
    assert_eq!(4, calls.load(SeqCst));
    img.rows_mut().free_histogram_inputs();
    assert_eq!(Some(liq_error::LIQ_UNSUPPORTED), img.rows().rgba_rows_iter().err());
    assert_eq!(&all[..], img.rows_mut().all_rows_f().unwrap());
}

#[test]
fn callback_rows_are_fitted() {
    let mut px = DynamicRows::new(2, 4, PixelsSource::Callback(short()));
    let all = px.all_rows_f().unwrap();
    let t = RGBA::new(0, 0, 0, 0);
    assert_eq!(
        &[
            t,
            t,
            RGBA::new(1, 1, 2, 3),
            t,
            RGBA::new(2, 1, 2, 3),
            RGBA::new(2, 1, 2, 3),
            RGBA::new(3, 1, 2, 3),
            RGBA::new(3, 1, 2, 3)
        ],
        all
    );
}

#[test]
fn callback_image_errors() {
    assert_eq!(Some(liq_error::LIQ_VALUE_OUT_OF_RANGE), Image::new_fn(short(), 0, 3).err());
    assert_eq!(Some(liq_error::LIQ_VALUE_OUT_OF_RANGE), Image::new_fn(short(), 3, 0).err());
}

#[test]
fn memory_ownership() {
    let pixels = numbered(6);
    let mut px = strided(&pixels, 3, 2, 3);
    let rows = liq_ownership::LIQ_OWN_ROWS();
    let pix = liq_ownership::LIQ_OWN_PIXELS();
    let copy = liq_ownership::LIQ_COPY_PIXELS();
    assert_eq!(Err(liq_error::LIQ_VALUE_OUT_OF_RANGE), px.set_memory_ownership(liq_ownership::empty()));
    assert_eq!(Err(liq_error::LIQ_VALUE_OUT_OF_RANGE), px.set_memory_ownership(copy));
    assert_eq!(Err(liq_error::LIQ_VALUE_OUT_OF_RANGE), px.set_memory_ownership(rows | copy));
    assert_eq!(Ok(()), px.set_memory_ownership(rows));
    assert_eq!(Ok(()), px.set_memory_ownership(pix));
    assert_eq!(Ok(()), px.set_memory_ownership(rows | pix));
    assert_eq!(&pixels[..], px.all_rows_f().unwrap());
    px.free_histogram_inputs();
    assert_eq!(Ok(()), px.set_memory_ownership(rows));
    assert_eq!(Err(liq_error::LIQ_UNSUPPORTED), px.set_memory_ownership(pix));
    assert_eq!(Err(liq_error::LIQ_UNSUPPORTED), px.set_memory_ownership(rows | pix));
    assert_eq!(Err(liq_error::LIQ_VALUE_OUT_OF_RANGE), px.set_memory_ownership(copy));
}

#[test]
fn callback_memory_cannot_be_owned() {
    let mut px = DynamicRows::new(2, 2, PixelsSource::Callback(short()));
    assert_eq!(
        Err(liq_error::LIQ_UNSUPPORTED),
        px.set_memory_ownership(liq_ownership::LIQ_OWN_ROWS())
    );
    assert_eq!(
        Err(liq_error::LIQ_UNSUPPORTED),
        px.set_memory_ownership(liq_ownership::LIQ_OWN_PIXELS())
    );
    assert_eq!(
        Err(liq_error::LIQ_VALUE_OUT_OF_RANGE),
        px.set_memory_ownership(liq_ownership::LIQ_COPY_PIXELS())
    );
}

#[test]
fn state_of_the_rows() {
    let pixels = numbered(6);
    let mut px = strided(&pixels, 3, 2, 3);
    assert!(!px.has_all_rows());
    assert!(!px.is_released());
    assert!(px.can_pull_row(0));
    assert!(px.can_pull_row(1));
    assert!(!px.can_pull_row(2));
    {
        let it = px.rgba_rows_iter().unwrap();
        assert!(!it.has_temp_row());
        assert_eq!(3, it.image().width());
        assert_eq!(2, it.image().height());
    }
    {
        let mut temp = temp_buf(3);
        let it = px.rows_iter(&mut temp).unwrap();
        assert!(!it.has_temp_row());
        assert!(it.image().has_all_rows());
    }
    assert!(px.has_all_rows());
    assert!(!px.is_released());
    px.free_histogram_inputs();
    assert!(px.has_all_rows());
    assert!(px.is_released());
    assert!(!px.can_pull_row(0));

    let callback = DynamicRows::new(2, 2, PixelsSource::Callback(short()));
    assert!(!callback.is_released());
    assert!(callback.can_pull_row(0));
    assert!(callback.can_pull_row(1000));
}

#[test]
fn large_images_hold_a_row_buffer() {
    let width = 4097usize;
    let height = 1024usize;
    let pixels = numbered(width * height);
    let mut px = strided(&pixels, width as u32, height as u32, width);
    let mut temp = temp_buf(width);
    let mut it = px.rows_iter(&mut temp).unwrap();
    assert!(it.has_temp_row());
    assert!(!it.image().has_all_rows());
    assert_eq!(&pixels[width * 1023..], it.row_f(&mut temp, 1023));
}

#[test]
fn row_functions_hand_out_their_rows() {
    let rows = RowFn::new(|row: usize, width: usize| vec![RGBA::new(row as u8, width as u8, 0, 255); width]);
    assert_eq!(vec![RGBA::new(3, 2, 0, 255); 2], rows.fill_row(3, 2));
    assert_eq!(vec![RGBA::new(3, 2, 0, 255); 2], rows.fill_row(3, 2));
    assert!(rows.fill_row(0, 0).is_empty());
    let mut px = DynamicRows::new(3, 2, PixelsSource::Callback(Box::new(rows)));
    let first = px.all_rows_f().unwrap().to_vec();
    assert_eq!(
        vec![
            RGBA::new(0, 3, 0, 255),
            RGBA::new(0, 3, 0, 255),
            RGBA::new(0, 3, 0, 255),
            RGBA::new(1, 3, 0, 255),
            RGBA::new(1, 3, 0, 255),
            RGBA::new(1, 3, 0, 255)
        ],
        first
    );
}

#[test]
fn callback_rows_read_twice_are_the_same() {
    let calls = Arc::new(AtomicUsize::new(0));
    let mut px = DynamicRows::new(4, 3, PixelsSource::Callback(gray(calls.clone())));
    let mut temp = temp_buf(4);
    let once: Vec<RGBA>;
    {
        let it = px.rgba_rows_iter().unwrap();
        once = it.row_rgba(&mut temp, 1).to_vec();
        assert_eq!(&once[..], it.row_rgba(&mut temp, 1));
        let mut temp_f = temp_buf(4);
        assert_eq!(&once[..], it.row_f2(&mut temp, &mut temp_f, 1));
        assert_eq!(once, temp_f);
    }
    assert_eq!(3, calls.load(SeqCst));
    let all = px.all_rows_f().unwrap();
    assert_eq!(&once[..], &all[4..8]);
}
