use spritezip::align::{get_offset_to_other_image, try_get_pixel};
use spritezip::archive::{compress_buffer, compress_image_to_buffer, open_streams, read_metadata};
use spritezip::codec::{DeltaDecoder, DeltaEncoder};
use spritezip::crop::{CropRegion, Cropper};
use spritezip::delta::{alt_compression_3_inner, decode_image};
use spritezip::metadata::{ArchiveError, CompressedImageInfo};
use spritezip::raster::{max_dimensions, BlockImageIterator, Image, Rgba};

fn image_from(width: u32, height: u32, f: impl Fn(u32, u32) -> [u8; 4]) -> Image {
    let mut raw = Vec::new();
    for y in 0..height {
        for x in 0..width {
            raw.extend_from_slice(&f(x, y));
        }
    }
    Image::from_raw(width, height, raw).unwrap()
}

fn empty() -> Image {
    Image::new(0, 0)
}

#[test]
fn raw_round_trip() {
    let img = image_from(3, 2, |x, y| [x as u8, y as u8, 7, 255]);
    let raw = img.to_raw();
    assert_eq!(raw.len(), 24);
    assert_eq!(&raw[4..8], &[1, 0, 7, 255]);
    let back = Image::from_raw(3, 2, raw.clone()).unwrap();
    assert_eq!(back.to_raw(), raw);
    assert!(Image::from_raw(3, 2, vec![0; 23]).is_none());
    assert!(Image::from_raw(3, 3, vec![0; 24]).is_none());
    assert_eq!(img.get_pixel(2, 1), Rgba { r: 2, g: 1, b: 7, a: 255 });
}

#[test]
fn opaque_alpha_copy() {
    let img = image_from(2, 1, |x, _| [x as u8, 2, 3, 0]);
    let o = img.with_opaque_alpha();
    assert_eq!(o.to_raw(), vec![0, 2, 3, 255, 1, 2, 3, 255]);
}

#[test]
fn max_of_dimensions() {
    assert_eq!(max_dimensions(&vec![]), (0, 0));
    assert_eq!(max_dimensions(&vec![(3, 9), (7, 2), (5, 5)]), (7, 9));
}

#[test]
fn alignment_is_bottom_centred() {
    let a = Image::new(100, 200);
    let b = Image::new(60, 180);
    assert_eq!(get_offset_to_other_image(&b, &a), (20, 20));
    assert_eq!(get_offset_to_other_image(&a, &b), (-20, -20));
    assert_eq!(get_offset_to_other_image(&a, &a), (0, 0));
    // An odd difference rounds toward zero either way.
    let c = Image::new(63, 180);
    assert_eq!(get_offset_to_other_image(&b, &c), (1, 0));
    assert_eq!(get_offset_to_other_image(&c, &b), (-1, 0));
}

#[test]
fn previous_pixel_lookup() {
    let img = image_from(2, 2, |x, y| [x as u8, y as u8, 0, 1]);
    assert_eq!(try_get_pixel((1, 1), &img), Some(Rgba { r: 1, g: 1, b: 0, a: 1 }));
    assert_eq!(try_get_pixel((-1, 0), &img), None);
    assert_eq!(try_get_pixel((0, 2), &img), None);
    assert_eq!(try_get_pixel((2, 0), &img), None);
}

#[test]
fn cropper_bounding_box() {
    let c = Cropper::new((10, 10));
    assert_eq!(
        c.get_crop_region(),
        CropRegion { top_left: (0, 0), dimensions: (0, 0) }
    );
    let mut c = Cropper::new((10, 10));
    c.add_nonzero_pixel(3, 4);
    assert_eq!(
        c.get_crop_region(),
        CropRegion { top_left: (3, 4), dimensions: (1, 1) }
    );
    c.add_nonzero_pixel(7, 2);
    c.add_nonzero_pixel(5, 9);
    assert_eq!(
        c.get_crop_region(),
        CropRegion { top_left: (3, 2), dimensions: (5, 8) }
    );
}

#[test]
fn cropper_of_empty_raster_is_empty() {
    let c = Cropper::new((0, 0));
    assert_eq!(
        c.get_crop_region(),
        CropRegion { top_left: (0, 0), dimensions: (0, 0) }
    );
}

#[test]
fn single_red_pixel() {
    let red = image_from(1, 1, |_, _| [255, 0, 0, 255]);
    let mut data = Vec::new();
    let mut bitmap = Vec::new();
    let r = alt_compression_3_inner(&red, &empty(), &mut data, &mut bitmap);
    assert_eq!(r, CropRegion { top_left: (0, 0), dimensions: (1, 1) });
    assert_eq!(bitmap, vec![1]);
    assert_eq!(data, vec![0xFF, 0x00, 0x00, 0xFF]);

    let mut enc = DeltaEncoder::new();
    enc.add_image(red, "red.png".to_string());
    let (bitmap, data, records) = enc.into_parts();
    assert_eq!(bitmap, vec![1]);
    assert_eq!(data, vec![0xFF, 0x00, 0x00, 0xFF]);
    assert_eq!(records.len(), 1);
    assert_eq!((records[0].diff_width, records[0].diff_height), (1, 1));
    assert_eq!((records[0].output_width, records[0].output_height), (1, 1));
    assert_eq!(records[0].output_path, "red.png");
}

#[test]
fn identical_images_add_nothing() {
    let pattern = |x: u32, y: u32| [(x * 3) as u8, (y * 5) as u8, (x ^ y) as u8, 255];
    let a = image_from(100, 100, pattern);
    let b = image_from(100, 100, pattern);
    let mut enc = DeltaEncoder::new();
    enc.add_image(a, "a.png".to_string());
    let (bitmap1, data1, _) = {
        let mut probe = DeltaEncoder::new();
        probe.add_image(image_from(100, 100, pattern), "a.png".to_string());
        probe.into_parts()
    };
    enc.add_image(b, "b.png".to_string());
    let (bitmap, data, records) = enc.into_parts();
    assert_eq!((records[1].diff_width, records[1].diff_height), (0, 0));
    assert_eq!(bitmap.len(), bitmap1.len());
    assert_eq!(data.len(), data1.len());
    assert_eq!(bitmap.len(), 100 * 100);
}

/// A figure drawn at the bottom centre of a transparent `w × h` canvas.
fn sprite(w: u32, h: u32) -> Image {
    image_from(w, h, move |x, y| {
        let fx = x as i64 - (w as i64 - 40) / 2;
        let fy = y as i64 - (h as i64 - 50);
        if (0..40).contains(&fx) && (0..50).contains(&fy) {
            [(fx * 6) as u8, (fy * 5) as u8, 90, 255]
        } else {
            [0, 0, 0, 0]
        }
    })
}

#[test]
fn bottom_centred_pair() {
    let a = sprite(100, 200);
    let b = sprite(60, 180);
    assert_eq!(get_offset_to_other_image(&b, &a), (20, 20));
    let mut data = Vec::new();
    let mut bitmap = Vec::new();
    let r = alt_compression_3_inner(&b, &a, &mut data, &mut bitmap);
    assert_eq!(r, CropRegion { top_left: (0, 0), dimensions: (0, 0) });
    assert!(data.is_empty());
    assert!(bitmap.is_empty());
}

#[test]
fn changed_region_is_the_bounding_box() {
    let a = image_from(10, 10, |_, _| [1, 2, 3, 4]);
    let b = image_from(10, 10, |x, y| {
        if (x, y) == (2, 7) || (x, y) == (6, 3) {
            [9, 9, 9, 9]
        } else {
            [1, 2, 3, 4]
        }
    });
    let mut data = Vec::new();
    let mut bitmap = Vec::new();
    let r = alt_compression_3_inner(&b, &a, &mut data, &mut bitmap);
    assert_eq!(r, CropRegion { top_left: (2, 3), dimensions: (5, 5) });
    assert_eq!(bitmap.len(), 25);
    assert_eq!(bitmap.iter().filter(|&&v| v == 1).count(), 2);
    assert_eq!(data, vec![9, 9, 9, 9, 9, 9, 9, 9]);
}

fn round_trip(images: Vec<Image>) {
    let mut enc = DeltaEncoder::new();
    for (k, img) in images.iter().enumerate() {
        enc.add_image(img.duplicate(), format!("{}.png", k));
    }
    let (bitmap, data, records) = enc.into_parts();
    let total: usize = records.iter().map(|d| (d.diff_width * d.diff_height) as usize).sum();
    assert_eq!(bitmap.len(), total);
    let ones = bitmap.iter().filter(|&&v| v == 1).count();
    assert_eq!(data.len(), 4 * ones);
    let mut dec = DeltaDecoder::new(bitmap, data);
    for (img, desc) in images.iter().zip(records.iter()) {
        let out = dec.decode_next(desc).unwrap();
        assert_eq!(out.width(), img.width());
        assert_eq!(out.height(), img.height());
        assert_eq!(out.to_raw(), img.to_raw());
    }
    assert!(dec.is_finished());
}

#[test]
fn round_trip_growing_shrinking_and_shifted() {
    round_trip(vec![
        sprite(60, 180),
        sprite(100, 200),
        sprite(61, 181),
        image_from(127, 53, |x, y| [x as u8, y as u8, (x * y) as u8, (x + y) as u8]),
        image_from(127, 53, |x, y| [x as u8, y as u8, (x * y) as u8, 7]),
        Image::new(0, 0),
        image_from(3, 1, |x, _| [x as u8, 0, 0, 255]),
    ]);
}

#[test]
fn round_trip_single_image() {
    round_trip(vec![image_from(51, 50, |x, y| [(x + y) as u8, 1, 2, 3])]);
}

#[test]
fn decoder_reports_short_streams() {
    let desc = CompressedImageInfo {
        start_index: 0,
        x: 0,
        y: 0,
        diff_width: 2,
        diff_height: 1,
        output_width: 2,
        output_height: 1,
        output_path: "a.png".to_string(),
    };
    let prev = Image::new(0, 0);
    let mut bp = 0usize;
    let mut dp = 0usize;
    assert!(matches!(
        decode_image(&desc, &prev, &[1], &mut bp, &[], &mut dp),
        Err(ArchiveError::StreamExhausted)
    ));
    let mut bp = 0usize;
    let mut dp = 0usize;
    assert!(matches!(
        decode_image(&desc, &prev, &[1, 1], &mut bp, &[1, 2, 3, 4], &mut dp),
        Err(ArchiveError::StreamExhausted)
    ));
    let mut bp = 0usize;
    let mut dp = 0usize;
    let img = decode_image(&desc, &prev, &[0, 1], &mut bp, &[1, 2, 3, 4], &mut dp).unwrap();
    assert_eq!(img.to_raw(), vec![0, 0, 0, 0, 1, 2, 3, 4]);
    assert_eq!((bp, dp), (2, 4));
}

#[test]
fn decoder_rejects_region_outside_image() {
    let desc = CompressedImageInfo {
        start_index: 0,
        x: 1,
        y: 0,
        diff_width: 2,
        diff_height: 1,
        output_width: 2,
        output_height: 1,
        output_path: "a.png".to_string(),
    };
    let mut bp = 0usize;
    let mut dp = 0usize;
    assert!(matches!(
        decode_image(&desc, &Image::new(0, 0), &[0, 0], &mut bp, &[], &mut dp),
        Err(ArchiveError::MalformedArchive)
    ));
}

#[test]
fn compression_changes_the_bytes() {
    let data = vec![7u8; 10000];
    let c = compress_buffer(&data);
    assert_ne!(c, data);
    assert!(c.len() < 1000);
    let img = Image::new(50, 50);
    let c = compress_image_to_buffer(&img);
    assert_ne!(c, img.to_raw());
}

fn archive_of(images: &[Image], metadata: &Vec<u8>) -> (Vec<u8>, u64) {
    let mut enc = DeltaEncoder::new();
    for (k, img) in images.iter().enumerate() {
        enc.add_image(img.duplicate(), format!("{}.png", k));
    }
    let (writer, info) = enc.finish();
    (writer.complete(metadata), info.bitmap_data_start)
}

#[test]
fn archive_round_trip() {
    let images = vec![sprite(60, 180), sprite(100, 200), sprite(100, 200)];
    let metadata = b"serialised metadata record".to_vec();
    let (archive, bitmap_data_start) = archive_of(&images, &metadata);
    let m = u64::from_le_bytes(archive[..8].try_into().unwrap());
    assert!(8 < bitmap_data_start && bitmap_data_start < m);
    assert!(m as usize <= archive.len());
    assert_eq!(read_metadata(&archive).unwrap(), metadata);
    let mut dec = open_streams(&archive, bitmap_data_start).unwrap();
    let mut enc = DeltaEncoder::new();
    for img in &images {
        enc.add_image(img.duplicate(), "x.png".to_string());
    }
    let (_, _, records) = enc.into_parts();
    for (img, desc) in images.iter().zip(records.iter()) {
        assert_eq!(dec.decode_next(desc).unwrap().to_raw(), img.to_raw());
    }
    assert!(dec.is_finished());
}

#[test]
fn empty_archive() {
    let metadata = vec![0u8; 20];
    let (archive, bitmap_data_start) = archive_of(&[], &metadata);
    let m = u64::from_le_bytes(archive[..8].try_into().unwrap());
    assert!(8 < bitmap_data_start && bitmap_data_start < m);
    assert_eq!(read_metadata(&archive).unwrap(), metadata);
    let dec = open_streams(&archive, bitmap_data_start).unwrap();
    assert!(dec.is_finished());
}

#[test]
fn malformed_archives_are_refused() {
    assert!(matches!(read_metadata(&[1, 2, 3]), Err(ArchiveError::MalformedArchive)));
    let mut a = vec![0u8; 16];
    a[0] = 200;
    assert!(matches!(read_metadata(&a), Err(ArchiveError::MalformedArchive)));
    let mut a = vec![0u8; 16];
    a[0] = 4;
    assert!(matches!(read_metadata(&a), Err(ArchiveError::MalformedArchive)));
    let (archive, start) = archive_of(&[sprite(60, 180)], &vec![1, 2, 3]);
    let m = u64::from_le_bytes(archive[..8].try_into().unwrap());
    assert!(matches!(open_streams(&archive, m + 1), Err(ArchiveError::MalformedArchive)));
    assert!(matches!(open_streams(&archive, 7), Err(ArchiveError::MalformedArchive)));
    assert!(open_streams(&archive, start).is_ok());
}

#[test]
fn block_image_iterator_hands_out_pixels() {
    let img = image_from(3, 3, |x, y| [x as u8, y as u8, 0, 255]);
    let mut it = BlockImageIterator::new(&img, 2);
    let mut seen = Vec::new();
    while let Some((x, y, p)) = it.next() {
        assert_eq!(p, Rgba { r: x as u8, g: y as u8, b: 0, a: 255 });
        seen.push((x, y));
    }
    assert_eq!(
        seen,
        vec![(0, 0), (1, 0), (0, 1), (1, 1), (2, 0), (2, 1), (0, 2), (1, 2), (2, 2)]
    );
}
