use galahad2lcd::picture::{copy_rows_into, pack_rows};
use galahad2lcd::rotation::{prepare_frame, rotation_from_degrees, Rotation};

/// A `width` x `height` RGBA picture whose pixel (x, y) is [x, y, 7, 255].
fn labelled(width: u32, height: u32) -> Vec<u8> {
    let mut out = Vec::new();
    for y in 0..height {
        for x in 0..width {
            out.extend_from_slice(&[x as u8, y as u8, 7, 255]);
        }
    }
    out
}

fn pixel(pixels: &[u8], width: u32, x: u32, y: u32) -> [u8; 4] {
    let i = ((y * width + x) * 4) as usize;
    [pixels[i], pixels[i + 1], pixels[i + 2], pixels[i + 3]]
}

#[test]
fn pack_rows_drops_row_padding() {
    // Two rows of one pixel, each row padded to eight bytes.
    let plane = vec![1, 2, 3, 4, 9, 9, 9, 9, 5, 6, 7, 8, 9, 9, 9, 9];
    assert_eq!(pack_rows(&plane, 8, 1, 2), vec![1, 2, 3, 4, 5, 6, 7, 8]);
}

#[test]
fn pack_rows_of_nothing_is_empty() {
    assert!(pack_rows(&[], 16, 3, 0).is_empty());
}

#[test]
fn copy_rows_into_keeps_the_padding() {
    let mut plane = vec![0xAA; 16];
    copy_rows_into(&mut plane, 8, &[1, 2, 3, 4, 5, 6, 7, 8], 1, 2);
    assert_eq!(plane, vec![1, 2, 3, 4, 0xAA, 0xAA, 0xAA, 0xAA, 5, 6, 7, 8, 0xAA, 0xAA, 0xAA, 0xAA]);
}

#[test]
fn copy_then_pack_gives_the_rows_back() {
    let tight = labelled(3, 2);
    let mut plane = vec![0x55; 2 * 16];
    copy_rows_into(&mut plane, 16, &tight, 3, 2);
    assert_eq!(pack_rows(&plane, 16, 3, 2), tight);
}

#[test]
fn degrees_to_rotation() {
    assert_eq!(rotation_from_degrees(0), Rotation::Upright);
    assert_eq!(rotation_from_degrees(90), Rotation::Clockwise90);
    assert_eq!(rotation_from_degrees(180), Rotation::Clockwise180);
    assert_eq!(rotation_from_degrees(270), Rotation::Clockwise270);
    assert_eq!(rotation_from_degrees(-90), Rotation::Clockwise270);
    assert_eq!(rotation_from_degrees(45), Rotation::Upright);
    assert_eq!(rotation_from_degrees(-180), Rotation::Upright);
}

#[test]
fn upright_frame_is_the_packed_plane() {
    let frame = prepare_frame(&labelled(3, 2), 12, 3, 2, Rotation::Upright);
    assert_eq!((frame.width, frame.height), (3, 2));
    assert_eq!(frame.pixels, labelled(3, 2));
}

#[test]
fn quarter_turn_clockwise() {
    let (w, h) = (3u32, 2u32);
    let frame = prepare_frame(&labelled(w, h), 12, w, h, Rotation::Clockwise90);
    assert_eq!((frame.width, frame.height), (h, w));
    assert_eq!(frame.pixels.len(), (w * h * 4) as usize);
    for y in 0..w {
        for x in 0..h {
            // pixel (x, y) comes from the source's (y, h - 1 - x)
            assert_eq!(pixel(&frame.pixels, h, x, y), [y as u8, (h - 1 - x) as u8, 7, 255]);
        }
    }
}

#[test]
fn half_turn() {
    let (w, h) = (3u32, 2u32);
    let frame = prepare_frame(&labelled(w, h), 12, w, h, Rotation::Clockwise180);
    assert_eq!((frame.width, frame.height), (w, h));
    for y in 0..h {
        for x in 0..w {
            assert_eq!(pixel(&frame.pixels, w, x, y), [(w - 1 - x) as u8, (h - 1 - y) as u8, 7, 255]);
        }
    }
}

#[test]
fn three_quarter_turn_clockwise() {
    let (w, h) = (3u32, 2u32);
    let frame = prepare_frame(&labelled(w, h), 12, w, h, Rotation::Clockwise270);
    assert_eq!((frame.width, frame.height), (h, w));
    for y in 0..w {
        for x in 0..h {
            // pixel (x, y) comes from the source's (w - 1 - y, x)
            assert_eq!(pixel(&frame.pixels, h, x, y), [(w - 1 - y) as u8, x as u8, 7, 255]);
        }
    }
}

#[test]
fn rotation_reads_the_plane_through_its_stride() {
    // One row of two pixels padded to twelve bytes, then a second row.
    let mut plane = vec![0u8; 20];
    plane[..8].copy_from_slice(&[1, 1, 1, 1, 2, 2, 2, 2]);
    plane[12..20].copy_from_slice(&[3, 3, 3, 3, 4, 4, 4, 4]);
    let frame = prepare_frame(&plane, 12, 2, 2, Rotation::Clockwise90);
    assert_eq!(frame.pixels, vec![3, 3, 3, 3, 1, 1, 1, 1, 4, 4, 4, 4, 2, 2, 2, 2]);
}

#[test]
fn quarter_then_three_quarter_turn_gives_the_picture_back() {
    let (w, h) = (4u32, 3u32);
    let source = labelled(w, h);
    let turned = prepare_frame(&source, (w * 4) as usize, w, h, Rotation::Clockwise90);
    let back = prepare_frame(
        &turned.pixels,
        (turned.width * 4) as usize,
        turned.width,
        turned.height,
        Rotation::Clockwise270,
    );
    assert_eq!((back.width, back.height), (w, h));
    assert_eq!(back.pixels, source);
}

#[test]
fn two_half_turns_give_the_picture_back() {
    let (w, h) = (5u32, 2u32);
    let source = labelled(w, h);
    let turned = prepare_frame(&source, (w * 4) as usize, w, h, Rotation::Clockwise180);
    assert_ne!(turned.pixels, source);
    let back = prepare_frame(&turned.pixels, (w * 4) as usize, w, h, Rotation::Clockwise180);
    assert_eq!(back.pixels, source);
}

#[test]
fn rotating_an_empty_picture() {
    let frame = prepare_frame(&[], 0, 0, 0, Rotation::Clockwise90);
    assert_eq!((frame.width, frame.height), (0, 0));
    assert!(frame.pixels.is_empty());
}
