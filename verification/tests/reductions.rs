use optipng_rs::cli::parse_args;
use optipng_rs::models::{CliArgs, LoadedImage, TrialConfig};
use optipng_rs::prepare::{can_prepare, plan_trials, prepare_file_data};
use optipng_rs::reduction::{can_reduce, reduce_image};

fn options(args: &[&str]) -> CliArgs {
    let args: Vec<String> = args.iter().map(|s| s.to_string()).collect();
    parse_args(&args, 4).unwrap()
}

type Outcome = (u8, u8, Option<Vec<u8>>, Option<Vec<u8>>, Vec<u8>, Vec<String>);

fn reduce(args: &[&str], w: u32, h: u32, ct: u8, bd: u8, stride: usize, pixels: &[u8]) -> Outcome {
    let cli = options(args);
    let mut data = pixels.to_vec();
    assert!(can_reduce(&cli, w, h, ct, bd, stride, &data));
    let r = reduce_image(&cli, w, h, ct, bd, stride, &mut data);
    (r.out_color_type, r.out_bit_depth, r.final_palette, r.final_trns, data, r.notes)
}

#[test]
fn repeated_bytes_become_single_ones() {
    let (ct, bd, plte, trns, data, notes) = reduce(&[], 2, 1, 0, 16, 4, &[7, 7, 200, 200]);
    assert_eq!((ct, bd, plte, trns, data), (0, 8, None, None, vec![7, 200]));
    assert_eq!(notes, vec!["  (i) Reducing bit depth from 16 to 8 (fake 16-bit image detected)".to_string()]);
    let (_, bd, _, _, data, notes) = reduce(&["-nb"], 2, 1, 0, 16, 4, &[7, 7, 200, 200]);
    assert_eq!((bd, data, notes.len()), (16, vec![7, 7, 200, 200], 0));
    let (_, bd, _, _, _, _) = reduce(&[], 2, 1, 0, 16, 4, &[7, 7, 200, 201]);
    assert_eq!(bd, 16);
}

#[test]
fn bit_depth_can_be_kept() {
    let (ct, bd, plte, trns, data, notes) = reduce(&["-nb"], 1, 1, 2, 8, 3, &[1, 2, 3]);
    assert_eq!((ct, bd, plte, trns, data), (3, 8, Some(vec![1, 2, 3]), None, vec![0]));
    assert_eq!(
        notes,
        vec!["  (i) Reducing color type from RGB to Palette (8 bit, Color count: 1)".to_string()]
    );
    let (_, bd, _, _, data, _) = reduce(&[], 1, 1, 2, 8, 3, &[1, 2, 3]);
    assert_eq!((bd, data), (1, vec![0]));

    let pixels: Vec<u8> = [[255u8, 0, 0], [0, 0, 255], [255, 0, 0], [0, 0, 255], [0, 0, 255], [255, 0, 0]].concat();
    let (ct, bd, plte, _, data, _) = reduce(&["-nb"], 3, 2, 2, 8, 9, &pixels);
    assert_eq!((ct, bd, plte, data), (3, 8, Some(vec![255, 0, 0, 0, 0, 255]), vec![0, 1, 0, 1, 1, 0]));

    let pixels = [10, 20, 30, 255, 1, 2, 3, 0, 4, 5, 6, 128, 10, 20, 30, 255];
    let (ct, bd, _, trns, data, _) = reduce(&["-nb"], 4, 1, 6, 8, 16, &pixels);
    assert_eq!((ct, bd, trns, data), (3, 8, Some(vec![0, 128]), vec![2, 0, 1, 2]));

    let (ct, bd, plte, _, data, _) = reduce(&["-nb"], 2, 1, 3, 4, 6, &[1, 2, 3, 4, 5, 6]);
    assert_eq!((ct, bd, plte, data), (3, 8, Some(vec![1, 2, 3, 4, 5, 6]), vec![0, 1]));
    let (ct, bd, plte, _, data, _) = reduce(&["-nb"], 1, 1, 2, 16, 6, &[1, 1, 2, 2, 3, 3]);
    assert_eq!((ct, bd, plte, data), (2, 16, None, vec![1, 1, 2, 2, 3, 3]));
}

#[test]
fn rows_have_to_be_there_only_where_they_are_packed() {
    let one_of_nine = vec![1u8, 2, 3];
    assert!(!can_reduce(&options(&[]), 3, 3, 2, 8, 9, &one_of_nine));
    assert!(can_reduce(&options(&["-np"]), 3, 3, 2, 8, 9, &one_of_nine));
    let (ct, bd, _, _, data, _) = reduce(&["-nb"], 3, 3, 2, 8, 9, &one_of_nine);
    assert_eq!((ct, bd, data), (3, 8, vec![0]));
}

#[test]
fn opaque_alpha_is_dropped() {
    let (ct, bd, _, _, data, notes) = reduce(&[], 2, 1, 4, 8, 4, &[1, 255, 2, 255]);
    assert_eq!((ct, bd, data), (0, 8, vec![1, 2]));
    assert_eq!(
        notes,
        vec![
            "  (i) Reducing color type from YA (Grayscale+Transparency) to Y (Grayscale) (all pixels are 100% opaque)"
                .to_string()
        ]
    );
    let (ct, _, _, _, data, _) = reduce(&[], 2, 1, 4, 8, 4, &[1, 255, 2, 254]);
    assert_eq!((ct, data), (4, vec![1, 255, 2, 254]));
    let (ct, bd, _, _, data, _) = reduce(&["-np"], 1, 1, 6, 16, 8, &[1, 2, 3, 4, 5, 6, 255, 255]);
    assert_eq!((ct, bd, data), (2, 16, vec![1, 2, 3, 4, 5, 6]));
}

#[test]
fn gray_in_three_samples_becomes_one() {
    let (ct, bd, _, _, data, notes) = reduce(&[], 2, 1, 2, 8, 6, &[5, 5, 5, 9, 9, 9]);
    assert_eq!((ct, bd, data), (0, 8, vec![5, 9]));
    assert_eq!(
        notes,
        vec!["  (i) Reducing color type from RGB to Y (Grayscale) (R==G==B across all pixels)".to_string()]
    );
    let (ct, _, _, _, data, _) = reduce(&["-np"], 2, 1, 6, 8, 8, &[5, 5, 5, 1, 9, 9, 9, 255]);
    assert_eq!((ct, data), (4, vec![5, 1, 9, 255]));
}

#[test]
fn few_colors_become_a_palette() {
    let red = [255u8, 0, 0];
    let blue = [0u8, 0, 255];
    let pixels: Vec<u8> = [red, blue, red, blue, blue, red].concat();
    let (ct, bd, plte, trns, data, notes) = reduce(&[], 3, 2, 2, 8, 9, &pixels);
    assert_eq!((ct, bd), (3, 1));
    assert_eq!(plte, Some(vec![255, 0, 0, 0, 0, 255]));
    assert_eq!(trns, None);
    assert_eq!(data, vec![0b0100_0000, 0b1100_0000]);
    assert_eq!(
        notes,
        vec!["  (i) Reducing color type from RGB to Palette (1 bit, Color count: 2)".to_string()]
    );
}

#[test]
fn transparent_colors_lead_the_palette() {
    let pixels = [10, 20, 30, 255, 1, 2, 3, 0, 4, 5, 6, 128, 10, 20, 30, 255];
    let (ct, bd, plte, trns, data, _) = reduce(&[], 4, 1, 6, 8, 16, &pixels);
    assert_eq!((ct, bd), (3, 2));
    assert_eq!(plte, Some(vec![1, 2, 3, 4, 5, 6, 10, 20, 30]));
    assert_eq!(trns, Some(vec![0, 128]));
    assert_eq!(data, vec![0b10_00_01_10]);
}

#[test]
fn palettes_take_four_or_eight_bits() {
    let pixels: Vec<u8> = (0..5u8).flat_map(|i| [i, 0, 100]).collect();
    let (ct, bd, plte, _, data, _) = reduce(&[], 5, 1, 2, 8, 15, &pixels);
    assert_eq!((ct, bd, data), (3, 4, vec![0x01, 0x23, 0x40]));
    assert_eq!(plte, Some(pixels));
    let pixels: Vec<u8> = (0..17u8).flat_map(|i| [i, 0, 100]).collect();
    let (ct, bd, _, _, data, _) = reduce(&[], 17, 1, 2, 8, 51, &pixels);
    assert_eq!((ct, bd), (3, 8));
    assert_eq!(data, (0..17u8).collect::<Vec<u8>>());
}

#[test]
fn too_many_colors_stay() {
    let pixels: Vec<u8> = (0..257u32).flat_map(|i| [(i % 256) as u8, (i / 256) as u8, 9]).collect();
    let (ct, bd, plte, _, data, notes) = reduce(&[], 257, 1, 2, 8, 771, &pixels);
    assert_eq!((ct, bd, plte, data), (2, 8, None, pixels));
    assert!(notes.is_empty());
}

#[test]
fn switched_off_reductions() {
    let pixels = [5u8, 5, 5, 255, 9, 9, 9, 255];
    let (ct, _, plte, _, data, _) = reduce(&["-nx"], 2, 1, 6, 8, 8, &pixels);
    assert_eq!((ct, plte, data), (6, None, pixels.to_vec()));
    let (ct, _, plte, _, data, _) = reduce(&["-nc"], 2, 1, 6, 8, 8, &pixels);
    assert_eq!((ct, plte, data), (6, None, pixels.to_vec()));
    let (ct, _, plte, _, _, notes) = reduce(&["-quiet"], 2, 1, 6, 8, 8, &pixels);
    assert_eq!((ct, plte, notes.len()), (0, None, 0));
    let (ct, _, plte, _, _, _) = reduce(&["-np"], 2, 1, 2, 8, 6, &[1, 2, 3, 1, 2, 3]);
    assert_eq!((ct, plte), (2, None));
}

#[test]
fn looked_up_palettes_are_indexed_again() {
    let (ct, bd, plte, _, data, notes) = reduce(&[], 2, 1, 3, 8, 6, &[1, 2, 3, 1, 2, 3]);
    assert_eq!((ct, bd, plte, data), (3, 1, Some(vec![1, 2, 3]), vec![0]));
    assert!(notes.is_empty());
    let (ct, _, _, _, data, _) = reduce(&["-nx"], 2, 1, 3, 4, 8, &[1, 2, 3, 4, 1, 2, 3, 4]);
    assert_eq!((ct, data.len()), (6, 8));
}

#[test]
fn every_pixel_keeps_its_color() {
    let (w, h) = (7u32, 5u32);
    let pixels: Vec<u8> = (0..w * h)
        .flat_map(|p| {
            let k = (p * p % 11) as u8;
            [k * 20, 255 - k, k, if k < 3 { k * 50 } else { 255 }]
        })
        .collect();
    let (ct, bd, plte, trns, data, _) = reduce(&[], w, h, 6, 8, 28, &pixels);
    assert_eq!((ct, bd), (3, 4));
    let (plte, trns) = (plte.unwrap(), trns.unwrap());
    let row = (w as usize + 1) / 2;
    assert_eq!(data.len(), row * h as usize);
    for p in 0..(w * h) as usize {
        let (x, y) = (p % w as usize, p / w as usize);
        let byte = data[y * row + x / 2];
        let i = (if x % 2 == 0 { byte >> 4 } else { byte & 15 }) as usize;
        assert_eq!(plte[3 * i..3 * i + 3], pixels[4 * p..4 * p + 3]);
        assert_eq!(trns.get(i).copied().unwrap_or(255), pixels[4 * p + 3]);
    }
}

#[test]
fn images_with_missing_pixels_are_told_apart() {
    let cli = options(&[]);
    assert!(!can_reduce(&cli, 2, 2, 6, 8, 8, &vec![255; 8]));
    assert!(can_reduce(&cli, 2, 2, 6, 8, 8, &vec![254; 8]));
    assert!(can_reduce(&options(&["-nc"]), 2, 2, 6, 8, 8, &vec![255; 8]));
    assert!(!can_reduce(&cli, 2, 2, 2, 4, 3, &vec![0; 6]));
    assert!(!can_reduce(&cli, 2, 3, 2, 8, 6, &vec![1, 2, 3]));
    assert!(can_reduce(&cli, 2, 1, 2, 8, 6, &vec![1, 2, 3]));
    assert!(can_reduce(&cli, 8, 2, 0, 1, 1, &vec![]));
}

fn image(ct: u8, bd: u8, stride: usize, w: u32, h: u32, pixels: Vec<u8>) -> LoadedImage {
    LoadedImage {
        width: w,
        height: h,
        bit_depth: bd,
        color_type: ct,
        stride,
        raw_pixels: pixels,
        orig_idat_size: 1234,
    }
}

#[test]
fn a_file_that_cannot_be_loaded() {
    let p = prepare_file_data(&options(&[]), Err("no such file".to_string()));
    assert_eq!(p.error_msg, Some("no such file".to_string()));
    assert!(p.is_skipped && p.trials.is_empty() && p.image_data.is_none());
    assert_eq!((p.best_size, p.total_trials, p.orig_idat_size), (usize::MAX, 0, 0));
}

#[test]
fn a_file_that_is_not_recoded() {
    let p = prepare_file_data(&options(&["-o0"]), Ok(image(2, 8, 3, 1, 1, vec![])));
    assert!(!p.is_skipped && p.trials.is_empty() && p.image_data.is_none());
    assert_eq!((p.best_size, p.orig_idat_size, p.total_trials), (1234, 1234, 1));
    assert_eq!(p.best_config, Some(TrialConfig { zc: 1, zm: 8, zs: 0, f: 0 }));
    assert_eq!((p.out_color_type, p.out_bit_depth), (2, 8));
}

#[test]
fn a_file_that_is_ready_for_its_trials() {
    let cli = options(&["-o2"]);
    let loaded = image(2, 8, 6, 2, 3, [[5u8; 3], [9; 3], [5; 3], [9; 3], [5; 3], [9; 3]].concat());
    assert!(can_prepare(&cli, &loaded));
    let p = prepare_file_data(&cli, Ok(loaded));
    assert_eq!((p.orig_color_type, p.out_color_type, p.out_bit_depth), (2, 0, 8));
    assert_eq!(*p.image_data.unwrap(), vec![5, 9, 5, 9, 5, 9]);
    assert!(p.shared_palette.is_none() && p.best_config.is_none() && p.error_msg.is_none());
    assert_eq!(p.trials, plan_trials(&cli, 0, 8));
    assert_eq!((p.total_trials, p.total_scanlines), (4, 12));
    assert_eq!((p.best_size, p.orig_idat_size), (usize::MAX, 1234));
    assert_eq!(p.notes.len(), 1);
}

#[test]
fn trials_follow_the_options() {
    let trials = plan_trials(&options(&["-zi2", "-o7"]), 2, 8);
    assert_eq!(trials, vec![TrialConfig { zc: 7, zm: 8, zs: 0, f: 5 }, TrialConfig { zc: 7, zm: 8, zs: 0, f: 3 }]);
    let trials = plan_trials(&options(&["-zc1", "-zm3", "-zs2", "-f4"]), 2, 8);
    assert_eq!(trials, vec![TrialConfig { zc: 1, zm: 3, zs: 2, f: 4 }]);
    assert!(plan_trials(&options(&["-zs2"]), 2, 8).is_empty());
    assert_eq!(plan_trials(&options(&["-o1"]), 3, 8), vec![TrialConfig { zc: 9, zm: 8, zs: 0, f: 0 }]);
    let p = prepare_file_data(&options(&["-zi2"]), Ok(image(0, 8, 1, 1, 1, vec![3])));
    assert_eq!((p.total_trials, p.total_scanlines), (1, 0));
}
