use optipng_rs::encoding::{
    final_options, row_batches, text_for_file, text_for_trial, trial_options, trial_outcome, RowBatch,
};
use optipng_rs::models::TrialConfig;
use optipng_rs::trials::{
    build_trial_list, get_opt_combinations, get_zopfli_opt_combinations, zc_to_zopfli_iterations, zs_difficulty,
};
use optipng_rs::utils::{
    calculate_column_widths, color_type_channels, color_type_name, color_type_short_name, format_duration,
    is_update_due, parse_ranges_i32, parse_ranges_u8, truncate_middle,
};

#[test]
fn color_types_have_names() {
    let all = [0u8, 2, 3, 4, 6, 5];
    let names: Vec<&str> = all.iter().map(|c| color_type_name(*c)).collect();
    assert_eq!(
        names,
        vec![
            "Y (Grayscale)",
            "RGB",
            "Palette",
            "YA (Grayscale+Transparency)",
            "RGBA (RGB+Transparency)",
            "Unknown",
        ]
    );
    let short: Vec<&str> = all.iter().map(|c| color_type_short_name(*c)).collect();
    assert_eq!(short, vec!["Y", "RGB", "Palette", "YA", "RGBA", "Unknown"]);
    let channels: Vec<u8> = all.iter().map(|c| color_type_channels(*c)).collect();
    assert_eq!(channels, vec![1, 3, 1, 2, 4, 0]);
}

#[test]
fn lists_of_numbers_are_read() {
    assert_eq!(parse_ranges_i32("1-3,7"), vec![1, 2, 3, 7]);
    assert_eq!(parse_ranges_i32("9"), vec![9]);
    assert_eq!(parse_ranges_i32("+5"), vec![5]);
    assert_eq!(parse_ranges_i32("3-1"), Vec::<i32>::new());
    assert_eq!(parse_ranges_i32("-5"), Vec::<i32>::new());
    assert_eq!(parse_ranges_i32("1--1"), Vec::<i32>::new());
    assert_eq!(parse_ranges_i32("x,2,,4-y,2"), vec![2, 2]);
    assert_eq!(parse_ranges_i32(""), Vec::<i32>::new());
    assert_eq!(parse_ranges_i32("2147483647-2147483647"), vec![i32::MAX]);
    assert_eq!(parse_ranges_i32("2147483648"), Vec::<i32>::new());
    assert_eq!(parse_ranges_u8("0,5,255,256"), vec![0, 5, 255]);
}

#[test]
fn durations_are_written_out() {
    assert_eq!(format_duration(0), "00:00.000");
    assert_eq!(format_duration(1_234), "00:01.234");
    assert_eq!(format_duration(61_005), "01:01.005");
    assert_eq!(format_duration(3_600_000), "01:00:00.000");
    assert_eq!(format_duration(86_399_999), "23:59:59.999");
    assert_eq!(format_duration(86_400_000), "1:00:00:00.000");
    assert_eq!(format_duration(12 * 86_400_000 + 3_661_042), "12:01:01:01.042");
}

#[test]
fn columns_share_the_terminal() {
    assert_eq!(calculate_column_widths(0), (30, 20, 10, 10));
    assert_eq!(calculate_column_widths(60), (30, 20, 10, 10));
    assert_eq!(calculate_column_widths(80), (40, 20, 3, 10));
    assert_eq!(calculate_column_widths(75), (37, 20, 1, 10));
    assert_eq!(calculate_column_widths(74), (37, 20, 10, 10));
    assert_eq!(calculate_column_widths(201), (100, 20, 64, 10));
}

#[test]
fn displays_are_updated_ten_times_a_second() {
    assert!(is_update_due(false, false, None));
    assert!(is_update_due(false, false, Some(100)));
    assert!(!is_update_due(false, false, Some(99)));
    assert!(is_update_due(true, false, Some(0)) && is_update_due(false, true, Some(0)));
}

#[test]
fn levels_map_to_iterations() {
    let n: Vec<i32> = (0..11).map(zc_to_zopfli_iterations).collect();
    assert_eq!(n, vec![15, 1, 3, 5, 10, 15, 30, 50, 100, 500, 15]);
}

#[test]
fn strategies_have_ranks() {
    let n: Vec<u8> = (-1..5).map(zs_difficulty).collect();
    assert_eq!(n, vec![0, 3, 4, 2, 1, 0]);
}

#[test]
fn presets_by_level() {
    assert_eq!(get_zopfli_opt_combinations(1), (vec![1], vec![3]));
    assert_eq!(get_zopfli_opt_combinations(7), (vec![7], vec![3, 5]));
    assert_eq!(get_zopfli_opt_combinations(0), (vec![2], vec![5]));
    assert_eq!(get_zopfli_opt_combinations(200), (vec![2], vec![5]));
    assert_eq!(get_opt_combinations(1, 3, 8), (vec![9], vec![8], vec![0], vec![0]));
    assert_eq!(get_opt_combinations(0, 2, 8), (vec![9], vec![8], vec![0], vec![5]));
    assert_eq!(get_opt_combinations(1, 0, 4), (vec![9], vec![8], vec![0], vec![0]));
    assert_eq!(get_opt_combinations(2, 2, 8), (vec![9], vec![8], vec![0, 1, 2, 3], vec![0, 5]));
    assert_eq!(get_opt_combinations(9, 2, 8), get_opt_combinations(2, 2, 8));
    let (zc, zm, zs, f) = get_opt_combinations(7, 6, 16);
    assert_eq!(zc, (1..=9).collect::<Vec<i32>>());
    assert_eq!((zm, zs, f), (vec![8, 9], vec![0, 1, 2, 3], vec![0, 1, 2, 3, 4, 5]));
}

fn trial(zc: i32, zm: i32, zs: i32, f: u8) -> TrialConfig {
    TrialConfig { zc, zm, zs, f }
}

#[test]
fn trials_run_from_the_highest_rank_down() {
    let trials = build_trial_list(&[1, 9], &[8], &[0, 1, 2, 3], &[0, 5]);
    assert_eq!(
        trials,
        vec![
            trial(9, 8, 1, 5),
            trial(9, 8, 1, 0),
            trial(9, 8, 0, 5),
            trial(9, 8, 0, 0),
            trial(1, 8, 1, 5),
            trial(1, 8, 1, 0),
            trial(1, 8, 0, 5),
            trial(1, 8, 0, 0),
            trial(1, 8, 2, 5),
            trial(1, 8, 2, 0),
            trial(1, 8, 3, 5),
            trial(1, 8, 3, 0),
        ]
    );
}

#[test]
fn trials_of_the_same_rank_stay_in_order() {
    let trials = build_trial_list(&[5], &[8], &[7, 4, 6], &[1]);
    assert_eq!(trials, vec![trial(5, 8, 7, 1), trial(5, 8, 4, 1), trial(5, 8, 6, 1)]);
}

#[test]
fn the_order_of_settings_does_not_matter() {
    let trials = build_trial_list(&[1, 9, 4], &[8, 9], &[0, 1, 2, 3], &[0, 5, 5]);
    assert_eq!(build_trial_list(&[9, 4, 1], &[9, 8], &[3, 0, 2, 1], &[5, 0, 5]), trials);
    let unknown = build_trial_list(&[5], &[8], &[7, 4], &[1]);
    assert_ne!(build_trial_list(&[5], &[8], &[4, 7], &[1]), unknown);
}

#[test]
fn long_texts_lose_their_middle() {
    assert_eq!(truncate_middle("abcdef", 6), "abcdef");
    assert_eq!(truncate_middle("abcdef", 5), "ab…ef");
    assert_eq!(truncate_middle("abcdef", 4), "a…ef");
    assert_eq!(truncate_middle("abcdef", 3), "a…f");
    assert_eq!(truncate_middle("abcdef", 2), "abcdef");
    assert_eq!(truncate_middle("äöüß€", 4), "ä…ß€");
}

#[test]
fn fast_strategies_go_with_the_lowest_level_only() {
    assert!(build_trial_list(&[9, 2], &[8, 9], &[2, 3], &[0]).is_empty());
    assert_eq!(build_trial_list(&[9, 1], &[8], &[2], &[0]), vec![trial(1, 8, 2, 0)]);
    assert!(build_trial_list(&[], &[8], &[0], &[0]).is_empty());
}

#[test]
fn encoder_settings() {
    let o = trial_options(&trial(9, 8, 1, 5), 1);
    assert_eq!((o.z_implementation, o.level, o.strategy, o.mem_level), (1, 9, 1, 8));
    assert_eq!((o.window_bits, o.max_idat_size, o.expected_idat_size), (15, 32768, 0));
    assert_eq!(trial_options(&trial(9, 8, 0, 5), 2).level, 500);
    let o = final_options(&trial(9, 8, 1, 5), 2, 777);
    assert_eq!((o.z_implementation, o.level, o.strategy, o.mem_level), (2, 9, 1, 8));
    assert_eq!((o.window_bits, o.max_idat_size, o.expected_idat_size), (15, 0, 777));
}

#[test]
fn texts_for_files() {
    let t = trial(9, 8, 1, 5);
    assert_eq!(text_for_file(&t, 0, "-o0 -mt1"), "-o0 -mt1\n-o0");
    assert_eq!(text_for_file(&t, 0, ""), "-o0");
    assert_eq!(text_for_file(&t, 2, ""), "9815");
    assert_eq!(text_for_file(&t, 5, "-o5 -mt8"), "-o5 -mt8\n9815");
    assert_eq!(text_for_file(&trial(-3, 8, 0, 10), 2, ""), "-38010");
}

#[test]
fn options_stand_above_the_settings() {
    let text = text_for_file(&trial(9, 8, 1, 5), 5, "-o5 -f0-5");
    let (first, second) = text.split_once('\n').unwrap();
    assert_eq!((first, second), ("-o5 -f0-5", "9815"));
    let text = text_for_file(&trial(1, 8, 0, 0), 0, "-o0 -force");
    assert_eq!(text.split_once('\n'), Some(("-o0 -force", "-o0")));
}

#[test]
fn texts_for_trials() {
    let t = trial(9, 8, 1, 5);
    assert_eq!(text_for_trial(&t, 0, "-o0", 2), "-o0\n-o0");
    assert_eq!(text_for_trial(&t, 2, "", 1), "9815");
    assert_eq!(text_for_trial(&t, 2, "-x", 1), "-x\n9815");
    assert_eq!(text_for_trial(&t, 2, "-zi2", 2), "-zi2\n95");
    assert_eq!(text_for_trial(&t, 2, "", 2), "95");
    assert_eq!(text_for_trial(&t, 2, "-x", 3), "");
}

#[test]
fn rows_go_out_in_batches() {
    assert!(row_batches(0, 0).is_empty());
    assert!(row_batches(100, 0).is_empty());
    assert_eq!(row_batches(30, 3), vec![RowBatch { offset: 0, rows: 3 }]);
    assert_eq!(row_batches(1000, 250), vec![RowBatch { offset: 0, rows: 250 }]);
    assert_eq!(
        row_batches(4 * 600, 600),
        vec![
            RowBatch { offset: 0, rows: 250 },
            RowBatch { offset: 1000, rows: 250 },
            RowBatch { offset: 2000, rows: 100 },
        ]
    );
}

#[test]
fn batches_cover_all_rows_and_nothing_more() {
    for (size, height) in [(7usize * 251, 251u32), (999, 10), (5, 1000), (123456, 1234)] {
        let row_bytes = size / height as usize;
        let mut done = 0;
        for b in row_batches(size, height) {
            assert_eq!(b.offset, done * row_bytes);
            assert!(b.rows >= 1 && b.rows <= 250);
            assert!(b.offset + b.rows * row_bytes <= size);
            done += b.rows;
        }
        assert_eq!(done, height as usize);
    }
}

#[test]
fn outcomes_of_trials() {
    assert_eq!(trial_outcome(false, 10, 2, vec![1]), (usize::MAX, None));
    assert_eq!(trial_outcome(true, 0, 2, vec![1]), (usize::MAX, None));
    assert_eq!(trial_outcome(true, 10, 2, vec![1]), (10, Some(vec![1])));
    assert_eq!(trial_outcome(true, 10, 1, vec![1]), (10, None));
}

#[test]
fn every_combination_is_tried_once() {
    let trials = build_trial_list(&[2, 1], &[8, 9], &[0, 2], &[0, 1]);
    assert_eq!(trials.len(), 12);
    for zc in [1, 2] {
        for zm in [8, 9] {
            for zs in [0, 2] {
                for f in [0, 1] {
                    let times = trials.iter().filter(|t| **t == trial(zc, zm, zs, f)).count();
                    assert_eq!(times, if zc == 2 && zs == 2 { 0 } else { 1 });
                }
            }
        }
    }
}
