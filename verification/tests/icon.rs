//! The icon: its checksums, its pictures, and the mark it is drawn from.

use disktree::icon::checksums::{adler32, crc32};
use disktree::icon::svg::{gather_rects, IconError};
use disktree::icon::{can_pack, dib, ico, parse, png};

#[test]
fn checksums_are_the_published_ones() {
    assert_eq!(crc32(b"123456789"), 0xcbf4_3926);
    assert_eq!(crc32(b""), 0);
    assert_eq!(crc32(b"IEND"), 0xae42_6082);
    assert_eq!(adler32(b""), 1);
    assert_eq!(adler32(b"Wikipedia"), 0x11e6_0398);
}

#[test]
fn a_small_picture_is_a_dib_with_its_mask() {
    let pixels: Vec<u8> = (0..16).collect();
    let out = dib(2, &pixels);
    assert_eq!(out.len(), 40 + 16 + 2 * 4);
    assert_eq!(&out[..12], &[40, 0, 0, 0, 2, 0, 0, 0, 4, 0, 0, 0]);
    assert_eq!(&out[12..16], &[1, 0, 32, 0]);
    assert_eq!(&out[40..56], &pixels[..]);
    assert!(out[56..].iter().all(|byte| *byte == 0));
    assert_eq!(dib(33, &[]).len(), 40 + 33 * 8, "two words to a mask row");
}

#[test]
fn a_large_picture_is_a_png_top_row_first() {
    // Two rows of two pixels: the bottom one first, in blue, green, red.
    let pixels = [
        1, 2, 3, 4, 5, 6, 7, 8, //
        9, 10, 11, 12, 13, 14, 15, 16,
    ];
    let out = png(2, &pixels);
    assert_eq!(&out[..8], b"\x89PNG\r\n\x1a\n");
    assert_eq!(&out[8..16], b"\x00\x00\x00\x0dIHDR");
    assert_eq!(&out[16..29], &[0, 0, 0, 2, 0, 0, 0, 2, 8, 6, 0, 0, 0]);
    assert_eq!(out[29..33], crc32(&out[12..29]).to_be_bytes());
    let raw = [
        0, 11, 10, 9, 12, 15, 14, 13, 16, //
        0, 3, 2, 1, 4, 7, 6, 5, 8,
    ];
    let data = &out[41..];
    assert_eq!(&data[..7], &[0x78, 1, 1, 18, 0, 237, 255]);
    assert_eq!(&data[7..25], &raw);
    assert_eq!(data[25..29], adler32(&raw).to_be_bytes());
    assert_eq!(&out[out.len() - 12..], b"\0\0\0\0IEND\xae\x42\x60\x82");
}

#[test]
fn long_pictures_are_stored_in_several_blocks() {
    let pixels = vec![7_u8; 256 * 256 * 4];
    let out = png(256, &pixels);
    let raw = 256 * (256 * 4 + 1);
    let blocks = (raw + 65_534) / 65_535;
    assert_eq!(out.len(), 8 + 25 + 12 + (2 + raw + 5 * blocks + 4) + 12);
    assert_eq!(&out[41..48], &[0x78, 1, 0, 0xff, 0xff, 0, 0]);
}

#[test]
fn an_icon_lists_its_pictures() {
    let images = vec![(16, vec![1_u8; 16 * 16 * 4]), (256, vec![2; 1024])];
    let out = ico(&images);
    assert_eq!(&out[..6], &[0, 0, 1, 0, 2, 0]);
    let small = dib(16, &images[0].1);
    let large = png(256, &images[1].1);
    let at = 6 + 2 * 16;
    assert_eq!(&out[6..14], &[16, 16, 0, 0, 1, 0, 32, 0]);
    assert_eq!(out[14..18], (small.len() as u32).to_le_bytes());
    assert_eq!(out[18..22], (at as u32).to_le_bytes());
    assert_eq!(&out[22..26], &[0, 0, 0, 0], "256 is written as 0");
    assert_eq!(out[34..38], ((at + small.len()) as u32).to_le_bytes());
    assert_eq!(&out[at..at + small.len()], &small[..]);
    assert_eq!(&out[at + small.len()..], &large[..]);
    assert_eq!(ico(&Vec::new()), vec![0, 0, 1, 0, 0, 0]);
}

#[test]
fn a_mark_is_its_rectangles() {
    let mark = parse(
        "<?xml version=\"1.0\"?>\n<svg viewBox=\"0 0 64 64\">\n  \
         <!-- the mark -->\n  \
         <rect x=\"4\" y=\"8.5\" width=\"16\" height=\"2\" fill=\"#0a1Bff\"/>\n  \
         <rect\twidth=\"64\" height=\"64\"/>\n</svg>\n",
    );
    assert!(mark.stopped.is_none());
    assert_eq!(mark.rects.len(), 2);
    let first = &mark.rects[0];
    assert_eq!(first.x.as_deref(), Some("4"));
    assert_eq!(first.y.as_deref(), Some("8.5"));
    assert_eq!(first.width.as_deref(), Some("16"));
    assert_eq!(first.height.as_deref(), Some("2"));
    assert_eq!(first.rgb, Some((0x0a, 0x1b, 0xff)));
    let second = &mark.rects[1];
    assert_eq!(second.x, None);
    assert_eq!(second.width, None, "an attribute stands behind a space");
    assert_eq!(second.height.as_deref(), Some("64"));
    assert_eq!(second.fill, "#000000");
    assert_eq!(second.rgb, Some((0, 0, 0)));
}

#[test]
fn a_mark_stops_at_what_cannot_be_drawn() {
    let mark = parse("<svg> <rect x=\"1\"/> <circle r=\"2\"/> <rect/>");
    assert_eq!(mark.rects.len(), 1);
    match mark.stopped {
        Some(IconError::NotARectangle(tag)) => assert_eq!(tag, "circle"),
        other => panic!("{other:?}"),
    }
    let mark = parse("<rect fill=\"red\"/>");
    match mark.stopped {
        Some(IconError::NotAColour(fill)) => assert_eq!(fill, "red"),
        other => panic!("{other:?}"),
    }
    let mark = parse("<rect fill=\"#12345g\"/>");
    assert_eq!(mark.rects[0].rgb, None, "six bytes, but no colour");
    let mark = parse("<rect fill=\"#+12345\"/>");
    assert_eq!(mark.rects[0].rgb, Some((0x01, 0x23, 0x45)));
}

#[test]
fn elements_are_drawn_by_their_names() {
    let elements = vec!["anything".to_string(), " fill=\"#010203\"".to_string()];
    let tags = vec!["svg".to_string(), "rect/".to_string()];
    let mark = gather_rects(&elements, &tags);
    assert!(mark.stopped.is_none());
    assert_eq!(mark.rects[0].rgb, Some((1, 2, 3)));
}

#[test]
fn a_row_past_32_bits_cannot_be_packed() {
    assert!(can_pack(&vec![(16, vec![0; 1024]), (256, vec![0; 1024])]));
    assert!(can_pack(&Vec::new()));
    assert!(!can_pack(&vec![(16, vec![0; 1024]), (1 << 30, Vec::new())]));
}
