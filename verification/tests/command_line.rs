use optipng_rs::cli::{parse_args, startup, Startup};
use optipng_rs::models::CliArgs;

fn strings(args: &[&str]) -> Vec<String> {
    args.iter().map(|s| s.to_string()).collect()
}

fn parsed(args: &[&str]) -> CliArgs {
    parse_args(&strings(args), 8).unwrap()
}

#[test]
fn no_arguments_give_the_defaults() {
    let cli = parsed(&[]);
    assert!(cli.files.is_empty());
    assert_eq!(cli.external_input, None);
    assert_eq!(cli.opt_level, 2);
    assert_eq!(cli.mt, 6);
    assert_eq!(cli.zi, 1);
    assert_eq!((cli.zc, cli.zm, cli.zs, cli.f), (None, None, None, None));
    assert!(!cli.backup && !cli.simulate && !cli.quiet);
    assert!(!cli.nc && !cli.nb && !cli.np && !cli.nx && !cli.nz);
    assert_eq!((cli.out_file, cli.out_dir), (None, None));
    assert!(!cli.recursive && cli.max_depth.is_none());
    assert!(!cli.show_help && !cli.force_trials && !cli.force_reenc);
    assert_eq!(cli.cmd_options, "");
    assert_eq!(cli.usage_error, None);
}

#[test]
fn threads_are_three_quarters_of_the_processors_but_at_least_one() {
    assert_eq!(parse_args(&strings(&["a.png"]), 1).unwrap().mt, 1);
    assert_eq!(parse_args(&strings(&["a.png"]), 2).unwrap().mt, 1);
    assert_eq!(parse_args(&strings(&["a.png"]), 3).unwrap().mt, 2);
    assert_eq!(parse_args(&strings(&["a.png"]), 16).unwrap().mt, 12);
    assert_eq!(parse_args(&strings(&["-mt", "0"]), 16).unwrap().mt, 12);
    assert_eq!(parse_args(&strings(&["-mt5"]), 16).unwrap().mt, 5);
    assert_eq!(parse_args(&strings(&["-mt", "7"]), 16).unwrap().mt, 7);
    assert_eq!(parse_args(&strings(&["-mt", "many"]), 4).unwrap().mt, 3);
    assert_eq!(parse_args(&strings(&["x"]), usize::MAX).unwrap().mt, usize::MAX / 4 * 3 + 2);
}

#[test]
fn levels_are_read_and_limited() {
    assert_eq!(parsed(&["-o5"]).opt_level, 5);
    assert_eq!(parsed(&["-o", "3"]).opt_level, 3);
    assert_eq!(parsed(&["-o9"]).opt_level, 7);
    assert_eq!(parsed(&["-o", "200"]).opt_level, 7);
    assert_eq!(parsed(&["-o999"]).opt_level, 2);
    assert_eq!(parsed(&["-o", "+4"]).opt_level, 4);
    assert_eq!(parsed(&["-o", "fast"]).opt_level, 2);
    assert_eq!(parsed(&["-o1", "-o"]).opt_level, 1);
}

#[test]
fn level_zero_neither_reduces_nor_recodes() {
    let cli = parsed(&["-o0", "a.png"]);
    assert!(cli.nx && cli.nz);
    assert_eq!(cli.cmd_options, "-o0");
    let cli = parsed(&["-nz", "a.png"]);
    assert!(!cli.nx && cli.nz);
}

#[test]
fn lists_are_put_in_order() {
    let cli = parsed(&["-zc9,1-3", "-zm", "8,9", "-zs3,0-1,1", "-f0-5", "-f5,2"]);
    assert_eq!(cli.zc, Some(vec![1, 2, 3, 9]));
    assert_eq!(cli.zm, Some(vec![8, 9]));
    assert_eq!(cli.zs, Some(vec![0, 1, 3]));
    assert_eq!(cli.f, Some(vec![0, 1, 2, 3, 4, 5]));
    assert_eq!(cli.cmd_options, "-zc9,1-3 -zm 8,9 -zs3,0-1,1 -f0-5 -f5,2");
}

#[test]
fn repeated_values_are_tried_once_and_in_ascending_order() {
    assert_eq!(parsed(&["-zc5,5,1,5,1"]).zc, Some(vec![1, 5]));
    assert_eq!(parsed(&["-zc9", "-zc3", "-zc9"]).zc, Some(vec![3, 9]));
    assert_eq!(parsed(&["-zcx"]).zc, Some(vec![]));
    assert_eq!(parsed(&["-f300,7,-1"]).f, Some(vec![7]));
    assert_eq!(parsed(&["-zs"]).zs, None);
}

#[test]
fn the_encoder_is_one_or_two() {
    assert_eq!(parsed(&["-zi2"]).zi, 2);
    assert_eq!(parsed(&["-zi", "2", "-zi1"]).zi, 1);
    assert_eq!(parsed(&["-zi"]).zi, 1);
    let range = "Error: Options like -zi1,2 or -zi1-2 are not allowed. Select either -zi1 or -zi2.";
    let value = "Error: Invalid value for -zi. Supported values are 1 (zlib) or 2 (Zöpfli).";
    for arg in ["-zi1,2", "-zi1-2", "-zi-1"] {
        assert_eq!(parse_args(&strings(&[arg]), 4).unwrap_err(), range);
    }
    for arg in ["-zi3", "-zix", "-zi0", "-zi256"] {
        assert_eq!(parse_args(&strings(&[arg]), 4).unwrap_err(), value);
    }
    assert_eq!(parse_args(&strings(&["-zi", "-o2"]), 4).unwrap_err(), range);
}

#[test]
fn every_command_line_is_usable_or_refused_for_the_encoder() {
    for args in [
        vec!["-zi9"],
        vec!["-h"],
        vec!["-mt", "-o", "-R"],
        vec!["-o0", "-mt0"],
        vec!["--", "-o9", "-zi9"],
    ] {
        match parse_args(&strings(&args), 0) {
            Ok(cli) => {
                assert!(cli.show_help || cli.mt >= 1);
                assert!(cli.opt_level <= 7);
                assert!(cli.zi == 1 || cli.zi == 2);
                assert!(cli.show_help || cli.opt_level > 0 || (cli.nx && cli.nz));
            }
            Err(text) => assert!(text.contains("-zi")),
        }
    }
}

#[test]
fn help_ends_the_reading() {
    let cli = parsed(&["-o0", "-h", "-nb"]);
    assert!(cli.show_help);
    assert!(!cli.nb && !cli.nz);
    assert_eq!(cli.mt, 0);
    assert!(parsed(&["--help"]).show_help);
    assert_eq!(startup(&cli), Startup::Help);
}

#[test]
fn an_input_in_another_format_needs_a_name() {
    let cli = parsed(&["-o5", "-e", "in.tga", "out.png"]);
    assert_eq!(cli.external_input, Some("in.tga".to_string()));
    assert_eq!(cli.files, vec!["out.png".to_string()]);
    assert_eq!(cli.cmd_options, "-o5 -e");
    let cli = parsed(&["-e"]);
    assert!(cli.show_help);
    assert_eq!(cli.usage_error, Some("Error: Option -e requires an input file argument.".to_string()));
}

#[test]
fn output_options_take_the_next_argument() {
    let cli = parsed(&["-out", "x.png", "-dir", "d", "a.png"]);
    assert_eq!(cli.out_file, Some("x.png".to_string()));
    assert_eq!(cli.out_dir, Some("d".to_string()));
    assert_eq!(cli.files, vec!["a.png".to_string()]);
    assert_eq!(cli.cmd_options, "-out -dir");
    assert_eq!(parsed(&["-out"]).out_file, None);
}

#[test]
fn recursion_takes_a_depth_if_there_is_one() {
    let cli = parsed(&["-R", "3", "."]);
    assert!(cli.recursive);
    assert_eq!(cli.max_depth, Some(3));
    assert_eq!(cli.files, vec![".".to_string()]);
    assert_eq!(parsed(&["-R12"]).max_depth, Some(12));
    let cli = parsed(&["-R", "."]);
    assert_eq!((cli.recursive, cli.max_depth), (true, None));
    assert_eq!(cli.files, vec![".".to_string()]);
    let cli = parsed(&["-R", ""]);
    assert_eq!((cli.max_depth, cli.files.len()), (None, 0));
    assert_eq!(parsed(&["-R", "99999999999999999999999"]).max_depth, None);
    assert!(!parsed(&["-Rx"]).recursive);
}

#[test]
fn switches_are_read() {
    let cli = parsed(&["-ft", "-force", "-backup", "-simulate", "-quiet", "-nc", "-nb", "-np", "-nx", "-nz"]);
    assert!(cli.force_trials && cli.force_reenc && cli.backup && cli.simulate && cli.quiet);
    assert!(cli.nc && cli.nb && cli.np && cli.nx && cli.nz);
    assert!(parsed(&["-keep"]).backup);
    assert!(parsed(&["-silent"]).quiet);
}

#[test]
fn unknown_options_are_only_noted() {
    let cli = parsed(&["-fix", "-what", "a.png"]);
    assert_eq!(cli.f, Some(vec![]));
    assert_eq!(cli.cmd_options, "-fix -what");
    assert_eq!(cli.files, vec!["a.png".to_string()]);
}

#[test]
fn files_follow_two_dashes() {
    let cli = parsed(&["-o3", "a.png", "--", "-o4", "b.png"]);
    assert_eq!(cli.opt_level, 3);
    assert_eq!(cli.files, strings(&["a.png", "-o4", "b.png"]));
    assert_eq!(cli.cmd_options, "-o3 --");
    assert_eq!(parsed(&["--"]).files.len(), 0);
}

#[test]
fn a_run_needs_an_input() {
    assert_eq!(startup(&parsed(&["-o3"])), Startup::NoInput);
    assert_eq!(startup(&parsed(&["a.png"])), Startup::Run);
    assert_eq!(startup(&parsed(&["-e", "a.tga"])), Startup::Run);
}
