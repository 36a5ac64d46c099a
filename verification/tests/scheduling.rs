use optipng_rs::cli::parse_args;
use optipng_rs::models::{CliArgs, FileState, FileTask, LoadedImage, TrialConfig};
use optipng_rs::output::{
    after_write, backup_name, format_reduction_info, opened_line, plan_write, reported_size, PutAside, WritePlan,
};
use optipng_rs::prepare::prepare_file_data;
use optipng_rs::scan::{
    choose_output, depth_below, entry_action, is_png_extension, EntryAction, Found, OutputPlace, ScanStats,
};
use optipng_rs::scheduler::{file_progress, FileProgress, Preparation, Scheduler, SizeChange, WorkTask};
use std::path::PathBuf;
use std::sync::Arc;

fn options(args: &[&str]) -> CliArgs {
    let args: Vec<String> = args.iter().map(|s| s.to_string()).collect();
    parse_args(&args, 4).unwrap()
}

fn state(name: &str, orig_size: u64) -> FileState {
    let task = FileTask {
        in_path: PathBuf::from(name),
        out_path: PathBuf::from(name),
        is_external: false,
        orig_size,
    };
    FileState::new(task, name.to_string())
}

fn gray(pixels: Vec<u8>) -> LoadedImage {
    LoadedImage {
        width: pixels.len() as u32,
        height: 1,
        bit_depth: 8,
        color_type: 0,
        stride: pixels.len(),
        raw_pixels: pixels,
        orig_idat_size: 50,
    }
}

#[test]
fn nothing_to_do_ends_at_once() {
    let mut s = Scheduler::new(vec![]);
    assert_eq!(s.next_work(), WorkTask::Terminate);
}

#[test]
fn trials_are_handed_out_once_and_files_one_at_a_time() {
    let cli = options(&["-o2"]);
    let mut s = Scheduler::new(vec![state("a", 100), state("b", 200)]);
    assert_eq!(s.file_count(), 2);
    assert_eq!(s.next_work(), WorkTask::Prepare);
    assert_eq!(s.begin_prepare(), 0);
    assert_eq!(s.next_work(), WorkTask::Wait);
    let v = s.prepared(0, prepare_file_data(&cli, Ok(gray(vec![1, 2, 3]))));
    assert_eq!(v, Preparation::Trial { trial_idx: 0 });
    for i in 1..4 {
        assert_eq!(s.next_work(), WorkTask::Trial { file_idx: 0, trial_idx: i });
    }
    assert_eq!(s.next_work(), WorkTask::Prepare);
    assert_eq!(s.begin_prepare(), 1);
    let v = s.prepared(1, prepare_file_data(&cli, Ok(gray(vec![9]))));
    assert_eq!(v, Preparation::Trial { trial_idx: 0 });
    assert_eq!(s.next_work(), WorkTask::Trial { file_idx: 1, trial_idx: 1 });
    for i in 0..3 {
        assert!(!s.trial_done(0, i, 40 + i, None, 1));
    }
    assert!(s.trial_done(0, 3, 39, None, 1));
    assert_eq!((s.file(0).best_size, s.file(0).best_config), (39, Some(s.file(0).trials[3])));
    assert_eq!(s.file_done(0, 80), (80, SizeChange::Saved(20)));
    assert!(s.file(0).is_processed && s.file(0).image_data.is_none());
    assert_eq!(s.next_work(), WorkTask::Trial { file_idx: 1, trial_idx: 2 });
    assert_eq!(s.next_work(), WorkTask::Trial { file_idx: 1, trial_idx: 3 });
    assert_eq!(s.next_work(), WorkTask::Wait);
    for i in 0..4 {
        assert_eq!(s.trial_done(1, i, 0, None, 1), i == 3);
    }
    assert_eq!(s.file(1).best_config, None);
    assert_eq!(s.file_done(1, 0), (200, SizeChange::Same));
    assert_eq!(s.next_work(), WorkTask::Terminate);
    assert_eq!(s.finished_files(), 2);
    assert_eq!((s.total_bytes(), s.saved_bytes()), ((300, 280), 20));
}

#[test]
fn files_without_trials_are_done_or_written() {
    let mut s = Scheduler::new(vec![state("a", 10), state("b", 20), state("c", 30)]);
    let i = s.begin_prepare();
    assert_eq!(s.prepared(i, prepare_file_data(&options(&[]), Err("bad".to_string()))), Preparation::Failed);
    assert_eq!((s.finished_files(), s.total_bytes()), (1, (10, 10)));
    assert_eq!(s.file(0).error_msg, Some("bad".to_string()));
    let i = s.begin_prepare();
    let none = prepare_file_data(&options(&["-zs2"]), Ok(gray(vec![1])));
    assert_eq!(s.prepared(i, none), Preparation::Skipped);
    let i = s.begin_prepare();
    let kept = prepare_file_data(&options(&["-nz"]), Ok(gray(vec![1])));
    assert_eq!(s.prepared(i, kept), Preparation::Write);
    assert_eq!(s.next_work(), WorkTask::Wait);
    assert_eq!(s.file_done(i, 33), (33, SizeChange::Grown(3)));
    assert_eq!(s.next_work(), WorkTask::Terminate);
    assert_eq!((s.total_bytes(), s.saved_bytes()), ((60, 63), 0));
}

#[test]
fn the_best_trial_is_the_first_of_the_smallest() {
    let cli = options(&["-zi2", "-zc1-5", "-f0"]);
    let mut s = Scheduler::new(vec![state("a", 10)]);
    s.begin_prepare();
    s.prepared(0, prepare_file_data(&cli, Ok(gray(vec![1]))));
    for _ in 1..5 {
        s.next_work();
    }
    let sizes = [usize::MAX, 0, 70, 30, 30];
    for (i, size) in sizes.iter().enumerate() {
        s.trial_done(0, i, *size, Some(vec![i as u8]), 2);
    }
    let f = s.file(0);
    assert_eq!((f.best_size, f.best_config, f.best_bytes.clone()), (30, Some(f.trials[3]), Some(vec![3])));
}

#[test]
fn the_best_of_a_file_is_the_best_of_what_came_back() {
    let mut s = Scheduler::new(vec![state("a", 10), state("b", 10)]);
    let mut out = [Vec::new(), Vec::new()];
    for i in 0..2 {
        assert_eq!(s.begin_prepare(), i);
        match s.prepared(i, prepare_file_data(&options(&["-o2"]), Ok(gray(vec![1, 2])))) {
            Preparation::Trial { trial_idx } => out[i].push(trial_idx),
            other => panic!("{:?}", other),
        }
    }
    while let WorkTask::Trial { file_idx, trial_idx } = s.next_work() {
        out[file_idx].push(trial_idx);
    }
    assert_eq!(out, [vec![0, 1, 2, 3], vec![0, 1, 2, 3]]);
    let back = [(0, 3, 50), (1, 0, 7), (0, 1, 40), (1, 2, 9), (0, 0, 40), (1, 3, 6), (0, 2, 41), (1, 1, 0)];
    let mut best = [usize::MAX, usize::MAX];
    for (n, (file, trial, size)) in back.iter().enumerate() {
        assert_eq!(s.trial_done(*file, *trial, *size, None, 1), n >= 6);
        if *size > 0 {
            best[*file] = best[*file].min(*size);
        }
        assert_eq!((s.file(0).best_size, s.file(1).best_size), (best[0], best[1]));
    }
    assert_eq!((s.file(0).best_size, s.file(0).best_config), (40, Some(s.file(0).trials[1])));
    assert_eq!((s.file(1).best_size, s.file(1).best_config), (6, Some(s.file(1).trials[3])));
}

#[test]
fn progress_is_counted_in_rows_or_trials() {
    let mut s = Scheduler::new(vec![state("a", 10)]);
    assert_eq!(file_progress(s.file(0)), FileProgress::Unknown);
    s.begin_prepare();
    s.prepared(0, prepare_file_data(&options(&["-o2"]), Ok(gray(vec![1]))));
    s.add_scanlines(0, 3);
    assert_eq!(file_progress(s.file(0)), FileProgress::Part { done: 3, total: 4 });
    s.add_scanlines(0, usize::MAX);
    assert_eq!(file_progress(s.file(0)), FileProgress::Part { done: 4, total: 4 });
    let mut s = Scheduler::new(vec![state("a", 10)]);
    s.begin_prepare();
    s.prepared(0, prepare_file_data(&options(&["-zi2"]), Ok(gray(vec![1]))));
    assert_eq!(file_progress(s.file(0)), FileProgress::Part { done: 0, total: 1 });
    s.trial_done(0, 0, 5, None, 2);
    s.file_done(0, 5);
    assert_eq!(file_progress(s.file(0)), FileProgress::Done);
}

fn tried(best_size: usize) -> FileState {
    let mut f = state("a", 100);
    f.best_size = best_size;
    f.best_config = Some(TrialConfig { zc: 9, zm: 8, zs: 1, f: 5 });
    f.orig_idat_size = 60;
    f.image_data = Some(Arc::new(vec![1]));
    f
}

fn is_keep(plan: &WritePlan) -> bool {
    matches!(plan, WritePlan::Keep)
}

#[test]
fn a_file_is_replaced_only_if_it_gets_smaller() {
    let plain = options(&[]);
    assert!(is_keep(&plan_write(&plain, &tried(60))));
    assert!(is_keep(&plan_write(&plain, &tried(61))));
    assert!(matches!(plan_write(&plain, &tried(59)), WritePlan::Encode(best, text) if best.f == 5 && text == "9815"));
    assert!(matches!(plan_write(&options(&["-force"]), &tried(99)), WritePlan::Encode(_, _)));
    let mut external = tried(99);
    external.task.is_external = true;
    assert!(matches!(plan_write(&plain, &external), WritePlan::Encode(_, _)));
}

#[test]
fn nothing_is_written_without_a_reason() {
    assert!(is_keep(&plan_write(&options(&["-simulate", "-force"]), &tried(1))));
    let mut skipped = tried(1);
    skipped.is_skipped = true;
    assert!(is_keep(&plan_write(&options(&["-force"]), &skipped)));
    let mut unknown = tried(1);
    unknown.best_config = None;
    assert!(is_keep(&plan_write(&options(&["-force"]), &unknown)));
}

#[test]
fn the_best_bytes_or_a_copy_are_written() {
    let mut f = tried(1);
    f.best_bytes = Some(vec![1, 2]);
    assert!(matches!(plan_write(&options(&["-zi2"]), &f), WritePlan::WriteBest));
    let mut f = tried(60);
    f.image_data = None;
    assert!(matches!(plan_write(&options(&["-o0"]), &f), WritePlan::Copy(text) if text == "-o0\n-o0"));
    assert!(matches!(plan_write(&options(&["-o0", "-mt1"]), &f), WritePlan::Copy(text) if text == "-o0 -mt1\n-o0"));
    assert!(matches!(plan_write(&options(&["-nz"]), &f), WritePlan::Copy(text) if text == "-nz\n9815"));
    f.task.is_external = true;
    assert!(matches!(plan_write(&options(&["-o0"]), &f), WritePlan::NoData));
}

#[test]
fn reported_sizes() {
    assert_eq!(reported_size(true, true, 5, 9), 0);
    assert_eq!(reported_size(false, true, 5, 9), 5);
    assert_eq!(reported_size(false, false, 5, 9), 9);
}

#[test]
fn a_file_that_was_put_aside_is_never_lost() {
    assert_eq!(after_write(false, true, true), PutAside::Nothing);
    assert_eq!(after_write(false, false, false), PutAside::Nothing);
    assert_eq!(after_write(true, true, false), PutAside::Remove);
    assert_eq!(after_write(true, true, true), PutAside::Keep);
    assert_eq!(after_write(true, false, false), PutAside::Restore);
    assert_eq!(after_write(true, false, true), PutAside::Restore);
    assert_eq!(backup_name("dir/a.png"), "dir/a.png.bak");
}

#[test]
fn what_is_said_when_a_file_is_taken_up() {
    let mut f = state("dir/a.png", 1);
    f.width = 640;
    f.height = 480;
    f.orig_bit_depth = 16;
    f.orig_color_type = 4;
    assert_eq!(opened_line(&f), "Opened dir/a.png -> 640 x 480 / 16 bit / YA");
}

#[test]
fn what_is_said_about_a_file() {
    let mut f = state("a", 1);
    assert_eq!(format_reduction_info(&f, 1), "no reduction");
    f.orig_bit_depth = 16;
    f.out_bit_depth = 8;
    f.orig_color_type = 6;
    f.out_color_type = 6;
    assert_eq!(format_reduction_info(&f, 1), "bit depth: 16->8, RGBA");
    f.out_color_type = 2;
    f.best_config = Some(TrialConfig { zc: 9, zm: 8, zs: 0, f: 5 });
    assert_eq!(
        format_reduction_info(&f, 1),
        "bit depth: 16->8, channels: 4->3 (RGBA->RGB), -zc9 -zm8 -zs0 -f5"
    );
    f.orig_bit_depth = 8;
    f.orig_color_type = 0;
    f.out_color_type = 3;
    assert_eq!(format_reduction_info(&f, 2), "8-bit, color: Y->Palette, -zc9 -f5");
    f.out_color_type = 0;
    assert_eq!(format_reduction_info(&f, 2), "-zc9 -f5");
}

#[test]
fn files_are_counted_by_what_they_are() {
    let mut s = ScanStats::new();
    assert_eq!(s.count_checked(true, false), Found::TakenUp);
    assert_eq!(s.count_checked(true, true), Found::Optimized);
    assert_eq!(s.count_checked(false, false), Found::Invalid);
    assert_eq!(s.count_checked(false, true), Found::Invalid);
    s.count_other();
    assert_eq!((s.valid_pngs, s.already_optimized, s.non_pngs, s.to_process()), (2, 1, 3, 1));
}

#[test]
fn directories_are_entered_down_to_the_limit() {
    assert_eq!(depth_below(1, None, false), None);
    assert_eq!(depth_below(1, None, true), Some(2));
    assert_eq!(depth_below(1, Some(2), true), Some(2));
    assert_eq!(depth_below(2, Some(2), true), None);
    assert_eq!(depth_below(1, Some(0), true), None);
}

#[test]
fn entries_of_directories() {
    let png = Some("PnG".to_string());
    assert_eq!(entry_action(true, false, &png, Some(3)), EntryAction::Descend(3));
    assert_eq!(entry_action(true, false, &png, None), EntryAction::Ignore);
    assert_eq!(entry_action(false, true, &png, None), EntryAction::Check);
    assert_eq!(entry_action(false, true, &Some("pngx".to_string()), None), EntryAction::CountOther);
    assert_eq!(entry_action(false, true, &None, None), EntryAction::CountOther);
    assert_eq!(entry_action(false, false, &png, None), EntryAction::Ignore);
    assert!(is_png_extension("png") && is_png_extension("PNG"));
    assert!(!is_png_extension("jpg") && !is_png_extension("") && !is_png_extension("pñg"));
}

fn place(args: &[&str], external: bool, multi: bool, dir: bool) -> String {
    match choose_output(&options(args), external, multi, dir) {
        OutputPlace::Directory(s) => format!("directory {}", s),
        OutputPlace::File(s) => format!("file {}", s),
        OutputPlace::Beside => "beside".to_string(),
        OutputPlace::InPlace => "in place".to_string(),
    }
}

#[test]
fn output_goes_where_it_is_named() {
    assert_eq!(place(&["a.png"], false, false, false), "in place");
    assert_eq!(place(&["-e", "a.tga"], true, false, false), "beside");
    assert_eq!(place(&["-e", "a.tga", "b.png"], true, false, false), "file b.png");
    assert_eq!(place(&["-e", "a.tga", "b/"], true, false, false), "directory b/");
    assert_eq!(place(&["-out", "x.png", "a.png"], false, false, false), "file x.png");
    assert_eq!(place(&["-out", "x", "a.png"], false, true, false), "directory x");
    assert_eq!(place(&["-out", "x", "a.png"], false, false, true), "directory x");
    assert_eq!(place(&["-out", "x\\", "a.png"], false, false, false), "directory x\\");
    assert_eq!(place(&["-dir", "d", "a.png"], false, false, false), "directory d");
    assert_eq!(place(&["-dir", "d", "-e", "a.tga", "b.png"], true, false, false), "directory d");
    assert_eq!(place(&["-dir", "d", "-out", "x.png", "a.png"], false, false, false), "file x.png");
}
