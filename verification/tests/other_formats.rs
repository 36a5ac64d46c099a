use optipng_rs::decoders::{can_load_external_image, load_external_image};
use optipng_rs::models::LoadedImage;
use optipng_rs::netpbm::decode_netpbm;
use optipng_rs::tga::{decode_tga, has_all_pixels};

fn tga(image_type: u8, w: u16, h: u16, bpp: u8, descriptor: u8, id: &[u8], pixels: &[u8]) -> Vec<u8> {
    let mut out = vec![0u8; 18];
    out[0] = id.len() as u8;
    out[2] = image_type;
    out[12..14].copy_from_slice(&w.to_le_bytes());
    out[14..16].copy_from_slice(&h.to_le_bytes());
    out[16] = bpp;
    out[17] = descriptor;
    out.extend_from_slice(id);
    out.extend_from_slice(pixels);
    out
}

fn shape(i: &LoadedImage) -> (u32, u32, u8, u8, usize, usize) {
    (i.width, i.height, i.bit_depth, i.color_type, i.stride, i.orig_idat_size)
}

#[test]
fn targa_rows_come_from_the_bottom() {
    let data = tga(2, 1, 2, 24, 0, b"id", &[1, 2, 3, 4, 5, 6]);
    let image = decode_tga(&data).unwrap();
    assert_eq!(shape(&image), (1, 2, 8, 2, 3, 26));
    assert_eq!(image.raw_pixels, vec![6, 5, 4, 3, 2, 1]);
}

#[test]
fn targa_orientation_follows_the_descriptor() {
    let pixels = [1u8, 2, 3, 4, 5, 6];
    let gray = |d: u8| decode_tga(&tga(3, 3, 2, 8, d, b"", &pixels)).unwrap().raw_pixels;
    assert_eq!(gray(0x20), vec![1, 2, 3, 4, 5, 6]);
    assert_eq!(gray(0x00), vec![4, 5, 6, 1, 2, 3]);
    assert_eq!(gray(0x30), vec![3, 2, 1, 6, 5, 4]);
    assert_eq!(gray(0x1F), vec![6, 5, 4, 3, 2, 1]);
}

#[test]
fn targa_alpha_stays_last() {
    let image = decode_tga(&tga(2, 1, 1, 32, 0x20, b"", &[10, 20, 30, 40, 99])).unwrap();
    assert_eq!(shape(&image), (1, 1, 8, 6, 4, 23));
    assert_eq!(image.raw_pixels, vec![30, 20, 10, 40]);
}

#[test]
fn targa_runs_are_unpacked() {
    let stream = [0x81, 1, 2, 3, 0x01, 4, 5, 6, 7, 8, 9];
    let image = decode_tga(&tga(10, 2, 2, 24, 0x20, b"", &stream)).unwrap();
    assert_eq!(image.raw_pixels, vec![3, 2, 1, 3, 2, 1, 6, 5, 4, 9, 8, 7]);
    let image = decode_tga(&tga(11, 4, 1, 8, 0x20, b"", &[0x83, 7])).unwrap();
    assert_eq!(image.raw_pixels, vec![7, 7, 7, 7]);
}

#[test]
fn targa_packets_store_the_same_image() {
    let pixels = [1u8, 2, 3, 1, 2, 3, 4, 5, 6, 7, 8, 9, 7, 8, 9, 7, 8, 9];
    let stream = [0x81, 1, 2, 3, 0x00, 4, 5, 6, 0x82, 7, 8, 9, 0xEE];
    for descriptor in [0u8, 0x10, 0x20, 0x30] {
        let plain = decode_tga(&tga(2, 3, 2, 24, descriptor, b"id", &pixels)).unwrap();
        let packed = decode_tga(&tga(10, 3, 2, 24, descriptor, b"id", &stream)).unwrap();
        assert_eq!(packed.raw_pixels, plain.raw_pixels);
        assert_eq!((packed.width, packed.height, packed.stride), (plain.width, plain.height, plain.stride));
        assert_eq!((packed.bit_depth, packed.color_type), (plain.bit_depth, plain.color_type));
        assert_eq!((packed.orig_idat_size, plain.orig_idat_size), (33, 38));
    }
}

#[test]
fn targa_runs_beyond_the_image_leave_zeros() {
    let image = decode_tga(&tga(11, 2, 1, 8, 0x20, b"", &[0x84, 7])).unwrap();
    assert_eq!(image.raw_pixels, vec![7, 7, 0, 0, 0]);
    assert_eq!(image.stride, 2);
}

#[test]
fn targa_streams_that_end_early() {
    let data = tga(11, 4, 1, 8, 0x20, b"", &[0x81, 7]);
    assert!(!has_all_pixels(&data));
    assert!(!can_load_external_image(&data));
    assert!(has_all_pixels(&tga(11, 2, 1, 8, 0x20, b"", &[0x81, 7])));
    assert!(has_all_pixels(b""));
}

#[test]
fn targa_errors() {
    let text = |data: &[u8]| decode_tga(data).unwrap_err();
    assert_eq!(text(&[0; 17]), "TGA header too short");
    let mut mapped = tga(2, 1, 1, 24, 0, b"", &[1, 2, 3]);
    mapped[1] = 1;
    assert_eq!(text(&mapped), "Color-mapped TGA is not supported");
    assert_eq!(text(&tga(2, 0, 1, 24, 0, b"", &[])), "Invalid TGA image dimensions");
    assert_eq!(text(&tga(2, 1, 0, 24, 0, b"", &[])), "Invalid TGA image dimensions");
    assert_eq!(text(&tga(2, 1, 1, 16, 0, b"", &[1, 2])), "Unsupported TGA bits-per-pixel: 16");
    assert_eq!(text(&tga(2, 2, 1, 24, 0, b"", &[1, 2, 3, 4, 5])), "Truncated TGA pixel data");
    assert_eq!(text(&tga(10, 1, 1, 24, 0, b"", &[0x80, 1, 2])), "Unexpected EOF in TGA RLE stream");
    assert_eq!(text(&tga(10, 1, 1, 24, 0, b"", &[0x00, 1, 2])), "Unexpected EOF in TGA raw stream");
    assert_eq!(text(&tga(1, 1, 1, 24, 0, b"", &[1, 2, 3])), "Unsupported TGA image type code: 1");
}

#[test]
fn portable_gray_and_color_images() {
    let image = decode_netpbm(b"P5\n# a comment\n 2 1\n255\nab").unwrap();
    assert_eq!(shape(&image), (2, 1, 8, 0, 2, 26));
    assert_eq!(image.raw_pixels, b"ab".to_vec());
    let image = decode_netpbm(b"P6\n1 2 255 abcdefg").unwrap();
    assert_eq!(shape(&image), (1, 2, 8, 2, 3, 18));
    assert_eq!(image.raw_pixels, b"abcdef".to_vec());
    let image = decode_netpbm(b"P5 \r\n1\t1\x0c65535\n\x01\x02").unwrap();
    assert_eq!((image.bit_depth, image.stride), (16, 2));
    assert_eq!(image.raw_pixels, vec![1, 2]);
    let image = decode_netpbm(b"P5\n0 3 1\n").unwrap();
    assert_eq!((image.width, image.height, image.raw_pixels.len()), (0, 3, 0));
}

#[test]
fn words_that_are_not_text_are_passed_over() {
    let image = decode_netpbm(b"P5\n\xff\xfe 1 1 255\nz").unwrap();
    assert_eq!(image.raw_pixels, b"z".to_vec());
}

#[test]
fn portable_image_errors() {
    let text = |data: &[u8]| decode_netpbm(data).unwrap_err();
    assert_eq!(text(b"P5"), "Unexpected EOF reading header");
    assert_eq!(text(b"P4\n"), "Unsupported Netpbm magic format");
    assert_eq!(text(b"P5 1 1 255\nx"), "Unsupported Netpbm magic format");
    assert_eq!(text(b"P5\n1 1"), "Invalid PPM/PGM header structure");
    assert_eq!(text(b"P5\nx 1 255\nz"), "Invalid width");
    assert_eq!(text(b"P5\n1 -1 255\nz"), "Invalid height");
    assert_eq!(text(b"P5\n1 1 4294967296\nz"), "Invalid maxval");
    assert_eq!(text(b"P6\n1 1 255\nab"), "PPM/PGM pixel data truncated");
    assert_eq!(text(b"P6\n4294967295 4294967295 65535\nab"), "PPM/PGM pixel data truncated");
}

#[test]
fn header_lines_must_be_text() {
    let want = std::str::from_utf8(b"P5\xc3(").unwrap_err().to_string();
    assert_eq!(decode_netpbm(b"P5\xc3(\nrest").unwrap_err(), want);
    let want = std::str::from_utf8(b"WIDTH \xff").unwrap_err().to_string();
    assert_eq!(decode_netpbm(b"P7\nWIDTH \xff\nENDHDR\n").unwrap_err(), want);
}

#[test]
fn arbitrary_map_images() {
    let data = b"P7\n# hi\nWIDTH 2\nHEIGHT 1\nDEPTH 4\nMAXVAL 255\nTUPLTYPE RGB_ALPHA\n\nENDHDR\nabcdefgh";
    let image = decode_netpbm(data).unwrap();
    assert_eq!(shape(&image), (2, 1, 8, 6, 8, data.len()));
    assert_eq!(image.raw_pixels, b"abcdefgh".to_vec());
    let image = decode_netpbm("P7\nWIDTH\u{2003}9\n WIDTH  1 \nHEIGHT 1\nDEPTH 2\nMAXVAL 256\nENDHDR\nabcd".as_bytes())
        .unwrap();
    assert_eq!((image.width, image.color_type, image.bit_depth, image.stride), (1, 4, 16, 4));
    assert_eq!(image.raw_pixels, b"abcd".to_vec());
}

#[test]
fn arbitrary_map_errors() {
    let text = |w: &str, d: &str, m: &str| {
        let head = format!("P7\nWIDTH {}\nHEIGHT 1\nDEPTH {}\nMAXVAL {}\nENDHDR\nab", w, d, m);
        decode_netpbm(head.as_bytes()).unwrap_err()
    };
    assert_eq!(text("0", "1", "255"), "Invalid PAM header configuration");
    assert_eq!(text("x", "1", "255"), "Invalid PAM header configuration");
    assert_eq!(text("1", "5", "255"), "Unsupported PAM depth: 5");
    assert_eq!(text("1", "1", "65536"), "Unsupported PAM maxval");
    assert_eq!(text("1", "3", "255"), "PAM pixel data truncated");
    assert_eq!(decode_netpbm(b"P7\nWIDTH 1\n").unwrap_err(), "Unexpected EOF reading header");
    assert_eq!(decode_netpbm(b"P7\n#WIDTH 1\nENDHDR\n").unwrap_err(), "Invalid PAM header configuration");
}

#[test]
fn the_format_is_known_by_its_first_bytes() {
    assert!(can_load_external_image(b"P5"));
    assert_eq!(load_external_image(b"P5\n1 1 255\nq").unwrap().raw_pixels, b"q".to_vec());
    assert_eq!(load_external_image(b"P4\n").unwrap_err(), "TGA header too short");
    let data = tga(3, 1, 1, 8, 0, b"", &[5]);
    assert!(can_load_external_image(&data));
    assert_eq!(load_external_image(&data).unwrap().raw_pixels, vec![5]);
}

#[test]
fn loaded_images_have_all_their_rows() {
    for data in [
        tga(2, 3, 2, 32, 0, b"xyz", &[9; 24]),
        tga(11, 5, 1, 8, 0, b"", &[0x86, 1]),
        b"P6\n2 2 1000\n012345678901234567890123".to_vec(),
    ] {
        let image = load_external_image(&data).unwrap();
        let samples = match image.color_type { 0 => 1, 2 => 3, 4 => 2, _ => 4 };
        assert_eq!(image.stride, image.width as usize * samples * image.bit_depth as usize / 8);
        assert!(image.raw_pixels.len() >= image.stride * image.height as usize);
    }
}
