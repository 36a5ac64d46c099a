use optipng_rs::chunk_parser::{
    check_png_file, copy_png_idat_and_add_text, make_crc_table, png_crc, update_crc,
};

const SIGNATURE: [u8; 8] = [0x89, b'P', b'N', b'G', b'\r', b'\n', 0x1a, b'\n'];

fn chunk(kind: &[u8; 4], data: &[u8]) -> Vec<u8> {
    let mut out = (data.len() as u32).to_be_bytes().to_vec();
    out.extend_from_slice(kind);
    out.extend_from_slice(data);
    out.extend_from_slice(&png_crc(kind, data).to_be_bytes());
    out
}

fn png(chunks: &[Vec<u8>]) -> Vec<u8> {
    let mut out = SIGNATURE.to_vec();
    for c in chunks {
        out.extend_from_slice(c);
    }
    out
}

fn end() -> Vec<u8> {
    vec![0, 0, 0, 0, b'I', b'E', b'N', b'D', 0xAE, 0x42, 0x60, 0x82]
}

fn sample() -> Vec<u8> {
    png(&[
        chunk(b"IHDR", &[0, 0, 0, 1, 0, 0, 0, 1, 8, 0, 0, 0, 0]),
        chunk(b"gAMA", &[0, 0, 177, 143]),
        chunk(b"PLTE", &[1, 2, 3]),
        chunk(b"tRNS", &[9]),
        chunk(b"tEXt", b"optipng-rs\0old"),
        chunk(b"tEXt", b"Comment\0hello"),
        chunk(b"IDAT", &[1, 2, 3]),
        chunk(b"tIME", &[7; 7]),
        chunk(b"IDAT", &[4, 5]),
        chunk(b"tEXt", b"optipng-rs\0older"),
        end(),
    ])
}

#[test]
fn checksums() {
    assert_eq!(png_crc(b"1234", b"56789"), 0xCBF4_3926);
    assert_eq!(png_crc(b"IEND", b""), 0xAE42_6082);
    assert_eq!(png_crc(b"", b""), 0);
    let table = make_crc_table();
    assert_eq!(table.len(), 256);
    assert_eq!((table[0], table[1], table[255]), (0, 0x7707_3096, 0x2D02_EF8D));
    assert_eq!(update_crc(0xFFFF_FFFF, &table, b"123456789"), !0xCBF4_3926);
}

#[test]
fn a_copy_joins_pixel_data_and_replaces_the_text() {
    let (out, size) = copy_png_idat_and_add_text(&sample(), "optipng-rs", "-o0").unwrap();
    assert_eq!(size, 5);
    let want = png(&[
        chunk(b"IHDR", &[0, 0, 0, 1, 0, 0, 0, 1, 8, 0, 0, 0, 0]),
        chunk(b"PLTE", &[1, 2, 3]),
        chunk(b"tRNS", &[9]),
        chunk(b"tEXt", b"optipng-rs\0-o0"),
        chunk(b"IDAT", &[1, 2, 3, 4, 5]),
        end(),
    ]);
    assert_eq!(out, want);
}

#[test]
fn metadata_are_left_out_of_a_copy() {
    let mut chunks = vec![chunk(b"IHDR", &[1])];
    for kind in [b"gAMA", b"cHRM", b"pHYs", b"tIME", b"zTXt", b"iTXt", b"tEXt", b"zzzz"] {
        chunks.push(chunk(kind, b"any\0data"));
    }
    chunks.push(chunk(b"PLTE", &[4, 5, 6]));
    chunks.push(chunk(b"tRNS", &[7]));
    chunks.push(chunk(b"IDAT", &[8]));
    chunks.push(chunk(b"tEXt", b"Author\0me"));
    chunks.push(end());
    let (out, _) = copy_png_idat_and_add_text(&png(&chunks), "k", "v").unwrap();
    let want = png(&[
        chunk(b"IHDR", &[1]),
        chunk(b"PLTE", &[4, 5, 6]),
        chunk(b"tRNS", &[7]),
        chunk(b"tEXt", b"k\0v"),
        chunk(b"IDAT", &[8]),
        end(),
    ]);
    assert_eq!(out, want);
}

#[test]
fn bytes_can_be_taken_in_piece_by_piece() {
    let mut odd = [0u32; 256];
    for i in 0..256usize {
        odd[i] = (i as u32).wrapping_mul(0x9E37_79B9) ^ 77;
    }
    for table in [make_crc_table(), odd] {
        let both = update_crc(5, &table, b"one and two");
        assert_eq!(update_crc(update_crc(5, &table, b"one "), &table, b"and two"), both);
        assert_eq!(update_crc(5, &table, b""), 5);
    }
    assert_eq!(update_crc(0x100, &odd, &[0]), 77 ^ 1);
    assert_eq!(png_crc(b"IDA", b"Tx"), png_crc(b"IDAT", b"x"));
}

#[test]
fn a_copy_of_a_copy_is_the_copy() {
    let (once, _) = copy_png_idat_and_add_text(&sample(), "optipng-rs", "a").unwrap();
    let (twice, _) = copy_png_idat_and_add_text(&once, "optipng-rs", "a").unwrap();
    assert_eq!(once, twice);
    let (other, _) = copy_png_idat_and_add_text(&once, "optipng-rs", "b").unwrap();
    let (direct, _) = copy_png_idat_and_add_text(&sample(), "optipng-rs", "b").unwrap();
    assert_eq!(other, direct);
    assert_ne!(once, other);
}

#[test]
fn a_copy_is_recognised() {
    let plain = png(&[chunk(b"IHDR", &[1]), chunk(b"IDAT", &[9]), end()]);
    assert_eq!(check_png_file(&plain, false), (true, false));
    let (out, _) = copy_png_idat_and_add_text(&plain, "optipng-rs", "x").unwrap();
    assert_eq!(check_png_file(&out, false), (true, true));
    assert_eq!(check_png_file(&out, true), (true, false));
    let (out, _) = copy_png_idat_and_add_text(&plain, "other", "x").unwrap();
    assert_eq!(check_png_file(&out, false), (true, false));
}

#[test]
fn wrong_checksums_are_set_right() {
    let mut file = png(&[chunk(b"IHDR", &[1, 2]), chunk(b"IDAT", &[9])]);
    file[8 + 8 + 2] ^= 0x55;
    let (out, size) = copy_png_idat_and_add_text(&file, "k", "v").unwrap();
    assert_eq!(size, 1);
    let want = png(&[chunk(b"IHDR", &[1, 2]), chunk(b"tEXt", b"k\0v"), chunk(b"IDAT", &[9]), end()]);
    assert_eq!(out, want);
}

#[test]
fn the_header_always_comes_first() {
    let file = png(&[chunk(b"IDAT", &[9]), chunk(b"IHDR", &[1]), chunk(b"Zzzz", &[2]), end(), chunk(b"Yyyy", &[])]);
    let (out, _) = copy_png_idat_and_add_text(&file, "k", "v").unwrap();
    let want = png(&[
        chunk(b"IHDR", &[1]),
        chunk(b"tEXt", b"k\0v"),
        chunk(b"IDAT", &[9]),
        chunk(b"Zzzz", &[2]),
        end(),
    ]);
    assert_eq!(out, want);
}

#[test]
fn what_cannot_be_copied() {
    let text = |data: &[u8]| copy_png_idat_and_add_text(data, "k", "v").unwrap_err();
    assert_eq!(text(b""), "Not a valid PNG file");
    assert_eq!(text(b"GIF89a__________"), "Not a valid PNG file");
    assert_eq!(text(&SIGNATURE), "No IDAT chunk found in PNG file");
    assert_eq!(text(&png(&[chunk(b"IDAT", &[]), end()])), "No IDAT chunk found in PNG file");
    let mut file = png(&[chunk(b"IDAT", &[1, 2, 3])]);
    file.pop();
    assert_eq!(text(&file), "PNG chunk extended beyond EOF");
    let mut file = png(&[chunk(b"IDAT", &[1]), vec![0xFF; 12]]);
    assert_eq!(text(&file), "PNG chunk extended beyond EOF");
    file.truncate(file.len() - 1);
    assert!(copy_png_idat_and_add_text(&file, "k", "v").is_ok());
}

#[test]
fn files_are_checked_by_their_chunks() {
    assert_eq!(check_png_file(b"", false), (false, false));
    assert_eq!(check_png_file(&SIGNATURE[..7], true), (false, false));
    assert_eq!(check_png_file(&SIGNATURE, false), (true, false));
    assert_eq!(check_png_file(&sample(), false), (true, true));
    let late = png(&[chunk(b"IDAT", &[1]), end(), chunk(b"tEXt", b"optipng-rs\0x")]);
    assert_eq!(check_png_file(&late, false), (true, false));
    let no_zero = png(&[chunk(b"tEXt", b"optipng-rs"), end()]);
    assert_eq!(check_png_file(&no_zero, false), (true, false));
    let not_utf8 = png(&[chunk(b"tEXt", b"\xff\0"), chunk(b"tEXt", b"optipng-rs\0"), end()]);
    assert_eq!(check_png_file(&not_utf8, false), (true, true));
}

#[test]
fn broken_files_are_not_taken_for_optimized() {
    let mut cut = png(&[chunk(b"tEXt", b"optipng-rs\0text")]);
    cut.truncate(cut.len() - 5);
    assert_eq!(check_png_file(&cut, false), (true, false));
    let mut without_crc = png(&[chunk(b"tEXt", b"optipng-rs\0text")]);
    without_crc.truncate(without_crc.len() - 4);
    assert_eq!(check_png_file(&without_crc, false), (true, true));
    let mut far = png(&[]);
    far.extend_from_slice(&[0xFF, 0xFF, 0xFF, 0xFF]);
    far.extend_from_slice(b"IDAT");
    far.extend_from_slice(&chunk(b"tEXt", b"optipng-rs\0"));
    assert_eq!(check_png_file(&far, false), (true, false));
}
