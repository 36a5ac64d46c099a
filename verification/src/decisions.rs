//! What is decided for a file: whether and how it is written, what is said
//! about it, and where its output goes.
use crate::cli::{startup_with, CliView};
use crate::decoders::external_image;
use crate::encoding::{
    final_settings, final_text, is_file_needed, outcome_size, settings_text, trial_settings, trial_text,
    zopfli_settings_text, EncoderOptions,
};
use crate::models::{CliArgs, FileState, LoadedImage, PreparedData, TrialConfig};
use crate::netpbm::netpbm_image;
use crate::output::{
    color_part, depth_part, info_text, opened_text, put_aside, settings_part, size_to_report, write_plan, PlanView,
};
use crate::prepare::{is_failed, is_ready, is_untouched, trials_for};
use crate::reduction::reduction;
use crate::scan::{action_for, lower, next_depth, place_for, same_but_case, EntryAction, PlaceView};
use crate::scheduler::{
    after_rows, better, first_open, has_trial, is_running, lemma_count_bound, lemma_first_open, next_task, progress_of,
    size_after, size_change, verdict, with_outcome, with_prepared, FileProgress, Preparation, SchedulerView, SizeChange, WorkTask,
};
use crate::text::{all_digits, decimal, digits_value, is_digit, joined, parse_unsigned, signed_decimal};
use crate::tga::tga_image;
use crate::trials::zopfli_iterations;
use crate::utils::{channels_of, column_widths, duration_text, is_due, padded, short_label, shortened};
use vstd::prelude::*;

verus! {

/// When a file is written: never in a simulation, never if it is to be
/// skipped, and never without a trial that worked. Otherwise it is written if
/// its pixel data have become smaller, and also if that is forced, if it comes
/// from another format, or if pixel data are not recoded.
pub proof fn law_when_files_are_written(cli: &CliArgs, f: FileState)
    ensures
        !(write_plan(cli, f) is Keep) <==> {
            &&& !cli.simulate
            &&& !f.is_skipped
            &&& f.best_config is Some
            &&& f.best_size < f.orig_idat_size || cli.force_reenc || f.task.is_external || cli.nz
        },
{
}

/// How a file is written: as the trial left it, if that was kept; as a copy,
/// if pixel data are not recoded and it is a PNG file; and else encoded with
/// the settings of the best trial. The text has the options and the settings.
pub proof fn law_how_files_are_written(cli: &CliArgs, f: FileState)
    requires
        !(write_plan(cli, f) is Keep),
    ensures
        f.best_bytes is Some ==> write_plan(cli, f) is WriteBest,
        f.best_bytes is None && cli.nz && !f.task.is_external ==> write_plan(cli, f) == PlanView::Copy(
            final_text(f.best_config->0, cli.opt_level, cli.cmd_options@),
        ),
        f.best_bytes is None && !(cli.nz && !f.task.is_external) && f.image_data is Some ==> write_plan(cli, f)
            == PlanView::Encode(
            f.best_config->0,
            final_text(f.best_config->0, cli.opt_level, cli.cmd_options@),
        ),
        f.best_bytes is None && !(cli.nz && !f.task.is_external) && f.image_data is None ==> write_plan(
            cli,
            f,
        ) is NoData,
{
}

/// The digit in ASCII.
pub open spec fn ascii(d: int) -> char {
    (48 + d) as char
}

proof fn lemma_one_digit(n: nat)
    requires
        n <= 9,
    ensures
        decimal(n) == seq![ascii(n as int)],
        signed_decimal(n as int) == seq![ascii(n as int)],
{
}

/// The text in a file: one digit each for compression level, memory level,
/// strategy and filter, or `-o0` at level 0; and above it the options, if
/// there are any.
pub proof fn law_text_in_files(t: TrialConfig, opt_level: u8, options: Seq<char>)
    requires
        0 <= t.zc <= 9,
        0 <= t.zm <= 9,
        0 <= t.zs <= 9,
        t.f <= 9,
    ensures
        ({
            let line = if opt_level == 0 {
                seq!['-', 'o', '0']
            } else {
                seq![ascii(t.zc as int), ascii(t.zm as int), ascii(t.zs as int), ascii(t.f as int)]
            };
            final_text(t, opt_level, options) == (if options.len() == 0 { line } else { options + seq!['\n'] + line })
        }),
{
    lemma_text_lines();
    lemma_one_digit(t.zc as nat);
    lemma_one_digit(t.zm as nat);
    lemma_one_digit(t.zs as nat);
    lemma_one_digit(t.f as nat);
    assert(settings_text(t) =~= seq![ascii(t.zc as int), ascii(t.zm as int), ascii(t.zs as int), ascii(t.f as int)]);
}

proof fn lemma_text_lines()
    ensures
        "-o0"@ == seq!['-', 'o', '0'],
        "\n"@ == seq!['\n'],
{
    reveal_strlit("-o0");
    reveal_strlit("\n");
    assert("-o0"@ =~= seq!['-', 'o', '0']);
    assert("\n"@ =~= seq!['\n']);
}

/// The text in the outcome of a trial: that of a file, but with a digit each
/// for compression level and filter alone if Zöpfli was used.
pub proof fn law_text_in_trials(t: TrialConfig, opt_level: u8, options: Seq<char>)
    requires
        0 <= t.zc <= 9,
        t.f <= 9,
    ensures
        trial_text(t, opt_level, options, 1) == final_text(t, opt_level, options),
        trial_text(t, 0, options, 2) == final_text(t, 0, options),
        opt_level > 0 ==> trial_text(t, opt_level, options, 2) == (if options.len() == 0 {
            seq![ascii(t.zc as int), ascii(t.f as int)]
        } else {
            options + seq!['\n'] + seq![ascii(t.zc as int), ascii(t.f as int)]
        }),
{
    lemma_text_lines();
    lemma_one_digit(t.zc as nat);
    lemma_one_digit(t.f as nat);
    assert(zopfli_settings_text(t) =~= seq![ascii(t.zc as int), ascii(t.f as int)]);
}

/// Zöpfli works harder at each compression level than at the one below: from
/// 1 round at level 1 over 15 at level 5 to 500 at level 9. Levels that do not
/// exist count as level 5.
pub proof fn law_zopfli_rounds(zc: int)
    ensures
        1 <= zc <= 8 ==> zopfli_iterations(zc) < zopfli_iterations(zc + 1),
        zopfli_iterations(1) == 1 && zopfli_iterations(2) == 3 && zopfli_iterations(3) == 5,
        zopfli_iterations(4) == 10 && zopfli_iterations(5) == 15 && zopfli_iterations(6) == 30,
        zopfli_iterations(7) == 50 && zopfli_iterations(8) == 100 && zopfli_iterations(9) == 500,
        !(1 <= zc <= 9) ==> zopfli_iterations(zc) == zopfli_iterations(5),
{
}

/// Numbers in decimal notation are read as the numbers that they are, have no
/// sign and no zero in front.
pub proof fn law_decimal_reads_back(n: nat, max: int)
    requires
        n <= max,
    ensures
        parse_unsigned(decimal(n), max) == Some(n as int),
        signed_decimal(n as int) == decimal(n),
        n > 0 ==> signed_decimal(-n) == seq!['-'] + decimal(n),
        n > 0 ==> decimal(n)[0] != '0',
        forall|i: int| 0 <= i < decimal(n).len() ==> '0' <= #[trigger] decimal(n)[i] && decimal(n)[i] <= '9',
{
    lemma_decimal(n);
    assert(is_digit(decimal(n)[0]));
}

proof fn lemma_decimal(n: nat)
    ensures
        all_digits(decimal(n)),
        digits_value(decimal(n)) == n,
        decimal(n).len() > 0,
        n > 0 ==> decimal(n)[0] != '0',
    decreases n,
{
    let d = decimal(n);
    if n < 10 {
        assert(d.drop_last() =~= Seq::empty());
        assert(digits_value(d.drop_last()) == 0);
    } else {
        let t = decimal(n / 10);
        lemma_decimal(n / 10);
        assert(d.drop_last() =~= t);
        assert(d[0] == t[0]);
        assert forall|i: int| 0 <= i < d.len() implies is_digit(#[trigger] d[i]) by {
            if i < t.len() {
                assert(is_digit(t[i]));
            }
        }
    }
}

/// A file claims to be a PNG file if its extension is these three letters, in
/// whatever case.
pub proof fn law_png_extensions(ext: Seq<char>)
    ensures
        same_but_case(ext, "png"@) <==> ext.len() == 3 && (ext[0] == 'p' || ext[0] == 'P') && (ext[1] == 'n' || ext[1]
            == 'N') && (ext[2] == 'g' || ext[2] == 'G'),
{
    reveal_strlit("png");
    let s = "png"@;
    assert(s[0] == 'p' && s[1] == 'n' && s[2] == 'g');
    if same_but_case(ext, s) {
        assert(lower(ext[0]) == lower(s[0]));
        assert(lower(ext[1]) == lower(s[1]));
        assert(lower(ext[2]) == lower(s[2]));
        lemma_lower(ext[0], 'p');
        lemma_lower(ext[1], 'n');
        lemma_lower(ext[2], 'g');
    }
}

proof fn lemma_lower(c: char, d: char)
    requires
        'a' <= d && d <= 'z',
        lower(c) == d,
    ensures
        c == d || c as int + 32 == d as int,
{
}

/// What is done with the entries of a directory: directories are looked into
/// if they are not too deep, files are checked if they claim to be PNG files
/// and else only counted.
pub proof fn law_entries(is_dir: bool, is_file: bool, extension: Option<Seq<char>>, below: Option<usize>)
    ensures
        ({
            let a = action_for(is_dir, is_file, extension, below);
            &&& a is Descend <==> is_dir && below is Some
            &&& is_dir && below is Some ==> a == EntryAction::Descend(below->0)
            &&& a is Check <==> !is_dir && is_file && extension is Some && same_but_case(extension->0, "png"@)
            &&& a is CountOther <==> !is_dir && is_file && !(extension is Some && same_but_case(
                extension->0,
                "png"@,
            ))
        }),
{
}

/// Where output goes. A named output is a directory if there are several
/// files, if it is one already, or if its name says so; else it is a file.
/// Without a name, output goes into the given directory, else beside an input
/// in another format, else in place of the input.
pub proof fn law_places(cli: &CliArgs, is_external: bool, is_multi_file: bool, is_dir: bool)
    ensures
        ({
            let place = place_for(cli, is_external, is_multi_file, is_dir);
            let name = if cli.out_file is Some {
                cli.out_file->0@
            } else {
                cli.files@[0]@
            };
            let is_named = cli.out_file is Some || is_external && cli.out_dir is None && cli.files@.len() > 0;
            let is_slashed = name.len() > 0 && (name.last() == '/' || name.last() == '\\');
            &&& is_named && (is_multi_file || is_dir || is_slashed) ==> place == PlaceView::Directory(name)
            &&& is_named && !is_multi_file && !is_dir && !is_slashed ==> place == PlaceView::File(name)
            &&& !is_named && cli.out_dir is Some ==> place == PlaceView::Directory(cli.out_dir->0@)
            &&& !is_named && cli.out_dir is None && is_external ==> place is Beside
            &&& !is_named && cli.out_dir is None && !is_external ==> place is InPlace
        }),
{
}

/// A file is read as a Netpbm image if it begins with `P5`, `P6` or `P7`, and
/// as a Targa image otherwise.
pub proof fn law_formats_are_told_apart(data: Seq<u8>)
    ensures
        data.len() >= 2 && data[0] == 80 && 53 <= data[1] <= 55 ==> external_image(data) == netpbm_image(data),
        data.len() < 2 || data[0] != 80 || data[1] < 53 || data[1] > 55 ==> external_image(data) == tga_image(data),
{
}

/// The trials of a prepared file are those for the image as it is encoded,
/// after its reduction; and its rows are counted once for each trial, unless
/// Zöpfli is used.
pub proof fn law_prepared_files(p: PreparedData, cli: &CliArgs, image: LoadedImage)
    requires
        is_ready(p, cli, image),
    ensures
        ({
            let out = reduction(
                cli,
                image.width,
                image.height,
                image.color_type,
                image.bit_depth,
                image.stride,
                image.raw_pixels@,
            );
            &&& p.out_color_type == out.color_type && p.out_bit_depth == out.bit_depth
            &&& p.orig_color_type == image.color_type && p.orig_bit_depth == image.bit_depth
            &&& p.width == image.width && p.height == image.height
            &&& p.image_data is Some && (*p.image_data->0)@ == out.pixels
            &&& p.shared_palette is Some <==> out.palette is Some
            &&& p.shared_palette matches Some(b) ==> (*b)@ == out.palette->0
            &&& p.shared_trns is Some <==> out.trns is Some
            &&& p.shared_trns matches Some(b) ==> (*b)@ == out.trns->0
            &&& p.trials@ == trials_for(cli, p.out_color_type, p.out_bit_depth)
            &&& p.total_trials == p.trials@.len()
            &&& cli.zi == 2 ==> p.total_scanlines == 0
            &&& cli.zi != 2 && p.trials@.len() * image.height <= usize::MAX ==> p.total_scanlines == p.trials@.len()
                * image.height
            &&& p.best_size == usize::MAX && p.best_config is None && p.orig_idat_size == image.orig_idat_size
            &&& !p.is_skipped && p.error_msg is None
        }),
{
}

/// A file whose pixel data are not recoded has no trials. It is written all
/// the same, and has the size that it had.
pub proof fn law_files_that_are_not_recoded(p: PreparedData, image: LoadedImage)
    requires
        is_untouched(p, image),
    ensures
        p.trials@.len() == 0 && !p.is_skipped && p.error_msg is None,
        p.best_size == image.orig_idat_size && p.orig_idat_size == image.orig_idat_size,
        p.best_config == Some(TrialConfig { zc: 1, zm: 8, zs: 0, f: 0 }),
        p.total_trials == 1 && p.total_scanlines == 1 && p.notes@.len() == 0,
        p.image_data is None && p.shared_palette is None && p.shared_trns is None,
        p.out_color_type == image.color_type && p.out_bit_depth == image.bit_depth,
        p.orig_color_type == image.color_type && p.orig_bit_depth == image.bit_depth,
        p.width == image.width && p.height == image.height,
        verdict(p) is Write,
{
}

/// A file that could not be loaded has nothing but the message, and is not
/// worked on.
pub proof fn law_files_that_cannot_be_loaded(p: PreparedData, message: Seq<char>)
    requires
        is_failed(p, message),
    ensures
        p.error_msg is Some && p.error_msg->0@ == message,
        verdict(p) is Failed,
        p.trials@.len() == 0 && p.total_trials == 0 && p.best_config is None && p.image_data is None,
{
}

/// Rows are counted as they are encoded, as far as they can be counted, and
/// for their own file alone.
pub proof fn law_rows_are_counted(s: SchedulerView, i: int, rows: usize)
    requires
        0 <= i < s.files.len(),
    ensures
        ({
            let n = s.files[i].completed_scanlines + rows;
            let t = after_rows(s, i, rows);
            &&& n <= usize::MAX ==> t.files[i].completed_scanlines == n
            &&& n > usize::MAX ==> t.files[i].completed_scanlines == usize::MAX
            &&& t == (SchedulerView { files: t.files, ..s })
            &&& t.files == s.files.update(
                i,
                FileState { completed_scanlines: t.files[i].completed_scanlines, ..s.files[i] },
            )
        }),
{
}

/// What is done with a prepared file: nothing if it could not be loaded, is to
/// be skipped, or has neither trials nor settings; its first trial is run if it
/// has trials; and else it is written.
pub proof fn law_verdicts(p: PreparedData)
    ensures
        verdict(p) is Failed <==> p.error_msg is Some,
        verdict(p) is Trial <==> p.error_msg is None && !p.is_skipped && p.trials@.len() > 0,
        verdict(p) matches Preparation::Trial { trial_idx } ==> trial_idx == 0,
        verdict(p) is Write <==> p.error_msg is None && !p.is_skipped && p.trials@.len() == 0 && p.best_config is Some,
{
}

/// An outcome counts if it is smaller than all before it, and is not empty.
/// Then it takes their place, and with Zöpfli so do its bytes; else nothing
/// but the number of trials changes.
pub proof fn law_outcomes_of_trials(f: FileState, trial_idx: int, size: usize, bytes: Option<Vec<u8>>, zi: u8)
    requires
        f.completed_trials < usize::MAX,
    ensures
        ({
            let g = with_outcome(f, trial_idx, size, bytes, zi);
            let counts = size > 0 && size < f.best_size;
            &&& g.completed_trials == f.completed_trials + 1
            &&& counts ==> g.best_size == size && g.best_config == Some(f.trials@[trial_idx])
            &&& !counts ==> g.best_size == f.best_size && g.best_config == f.best_config
            &&& counts && zi == 2 ==> g.best_bytes == bytes
            &&& !(counts && zi == 2) ==> g.best_bytes == f.best_bytes
            &&& g == (FileState {
                completed_trials: g.completed_trials,
                best_size: g.best_size,
                best_config: g.best_config,
                best_bytes: g.best_bytes,
                ..f
            })
        }),
{
}

/// How the size of a file has changed: the size that was written counts, and
/// where nothing was written, the size stays. Savings and growth make up the
/// difference.
pub proof fn law_size_changes(written: u64, orig_size: u64)
    ensures
        ({
            let size = size_after(written, orig_size);
            &&& written == 0 ==> size == orig_size
            &&& written > 0 ==> size == written
            &&& match size_change(orig_size, size) {
                SizeChange::Saved(n) => n > 0 && size + n == orig_size,
                SizeChange::Same => size == orig_size,
                SizeChange::Grown(n) => n > 0 && orig_size + n == size,
            }
        }),
{
}

/// How far the work on a file is: done if it is finished or skipped; else so
/// many rows of all rows, or so many trials of all trials; and never more than
/// all.
pub proof fn law_progress(f: FileState)
    ensures
        progress_of(f) is Done <==> f.is_processed || f.is_skipped,
        progress_of(f) is Unknown <==> !f.is_processed && !f.is_skipped && f.total_scanlines == 0 && f.total_trials
            == 0,
        progress_of(f) matches FileProgress::Part { done, total } ==> {
            &&& done <= total
            &&& total == (if f.total_scanlines > 0 { f.total_scanlines } else { f.total_trials })
            &&& f.total_scanlines > 0 && f.completed_scanlines <= total ==> done == f.completed_scanlines
            &&& f.total_scanlines > 0 && f.completed_scanlines > total ==> done == total
            &&& f.total_scanlines == 0 && f.completed_trials <= total ==> done == f.completed_trials
            &&& f.total_scanlines == 0 && f.completed_trials > total ==> done == total
        },
{
}

/// A text that is shortened keeps its ends: its front, then an ellipsis, then
/// its back, which has as many characters as the front or one more.
pub proof fn law_shortened_texts_keep_their_ends(text: Seq<char>, width: int)
    ensures
        ({
            let s = shortened(text, width);
            &&& text.len() <= width || width < 3 ==> s == text
            &&& text.len() > width && width >= 3 ==> {
                let front = (width - 1) / 2;
                &&& s[front] == '\u{2026}'
                &&& forall|i: int| 0 <= i < front ==> #[trigger] s[i] == text[i]
                &&& forall|i: int| front < i < width ==> #[trigger] s[i] == text[text.len() - width + i]
            }
        }),
{
    reveal_strlit("\u{2026}");
}

/// A length of time below a day: minutes and seconds in two digits and
/// milliseconds in three, and the hours in two digits in front if there are
/// any.
pub proof fn law_durations(millis: nat)
    requires
        millis < 86400000,
    ensures
        ({
            let t = duration_text(millis);
            let h = millis as int / 3600000;
            let m = millis as int / 60000 % 60;
            let s = millis as int / 1000 % 60;
            let k = millis as int % 1000;
            let rest = seq![
                ascii(m / 10),
                ascii(m % 10),
                ':',
                ascii(s / 10),
                ascii(s % 10),
                '.',
                ascii(k / 100),
                ascii(k / 10 % 10),
                ascii(k % 10),
            ];
            t == (if h == 0 { rest } else { seq![ascii(h / 10), ascii(h % 10), ':'] + rest })
        }),
{
    let seconds = millis / 1000;
    let minutes = seconds / 60;
    let hours = minutes / 60;
    assert(hours == millis as int / 3600000);
    assert(minutes == millis as int / 60000);
    assert(hours < 24 && hours / 24 == 0 && hours % 24 == hours);
    lemma_two(minutes % 60);
    lemma_two(seconds % 60);
    lemma_two(hours % 24);
    lemma_three(millis % 1000);
    reveal_strlit(":");
    reveal_strlit(".");
    let h = millis as int / 3600000;
    let m = millis as int / 60000 % 60;
    let s = millis as int / 1000 % 60;
    let k = millis as int % 1000;
    let rest = seq![
        ascii(m / 10),
        ascii(m % 10),
        ':',
        ascii(s / 10),
        ascii(s % 10),
        '.',
        ascii(k / 100),
        ascii(k / 10 % 10),
        ascii(k % 10),
    ];
    assert(padded(minutes % 60, 2) + ":"@ + padded(seconds % 60, 2) + "."@ + padded(millis % 1000, 3) =~= rest);
    if h > 0 {
        assert(duration_text(millis) =~= seq![ascii(h / 10), ascii(h % 10), ':'] + rest);
    }
}

/// A length of time of a day or more has the days in front.
pub proof fn law_long_durations(millis: nat)
    requires
        millis >= 86400000,
    ensures
        ({
            let rest = (millis % 86400000) as nat;
            let h = rest as int / 3600000;
            let short = duration_text(rest);
            duration_text(millis) == decimal(millis / 86400000) + seq![':'] + (if h == 0 {
                seq!['0', '0', ':'] + short
            } else {
                short
            })
        }),
{
    let rest = (millis % 86400000) as nat;
    let days = millis / 86400000;
    assert(millis / 1000 / 60 / 60 / 24 == days);
    assert(millis / 1000 / 60 / 60 % 24 == rest / 1000 / 60 / 60);
    assert(millis / 1000 / 60 % 60 == rest / 1000 / 60 % 60);
    assert(millis / 1000 % 60 == rest / 1000 % 60);
    assert(millis % 1000 == rest % 1000);
    assert(rest / 1000 / 60 / 60 < 24);
    assert(rest / 1000 / 60 / 60 / 24 == 0);
    reveal_strlit(":");
    assert(":"@ =~= seq![':']);
    let hours = rest / 1000 / 60 / 60;
    assert(hours == rest as int / 3600000);
    lemma_two(hours);
    assert(duration_text(millis) =~= decimal(days) + seq![':'] + (if hours == 0 {
        seq!['0', '0', ':'] + duration_text(rest)
    } else {
        duration_text(rest)
    }));
}

proof fn lemma_two(n: nat)
    requires
        n < 100,
    ensures
        padded(n, 2) == seq![ascii(n as int / 10), ascii(n as int % 10)],
{
    reveal_with_fuel(decimal, 3);
    assert(padded(n, 2) =~= seq![ascii(n as int / 10), ascii(n as int % 10)]);
}

proof fn lemma_three(n: nat)
    requires
        n < 1000,
    ensures
        padded(n, 3) == seq![ascii(n as int / 100), ascii(n as int / 10 % 10), ascii(n as int % 10)],
{
    reveal_with_fuel(decimal, 4);
    assert(padded(n, 3) =~= seq![ascii(n as int / 100), ascii(n as int / 10 % 10), ascii(n as int % 10)]);
}

/// The winner is written with the settings that it was tried with: the same
/// encoder, compression level, strategy, memory level and window. Only the
/// size of the chunks differs: pieces of 32 KiB in trials, and one chunk of the
/// size that is known by then. Zöpfli is told rounds instead of a level.
pub proof fn law_winners_are_encoded_as_tried(t: TrialConfig, size: usize)
    ensures
        ({
            let a = trial_settings(t, 1);
            let b = final_settings(t, 1, size);
            let c = trial_settings(t, 2);
            &&& a.level == t.zc && a.strategy == t.zs && a.mem_level == t.zm
            &&& a.window_bits == 15 && a.z_implementation == 1
            &&& a.max_idat_size == 32768 && a.expected_idat_size == 0
            &&& b == (EncoderOptions { max_idat_size: 0, expected_idat_size: size, ..a })
            &&& c == (EncoderOptions { z_implementation: 2, level: c.level, ..a })
            &&& c.level == zopfli_iterations(t.zc as int)
            &&& final_settings(t, 2, size) == (EncoderOptions { z_implementation: 2, ..b })
        }),
{
}

/// A trial that could not be started, or that wrote no pixel data, never wins:
/// its size is the greatest there is. Files are kept for Zöpfli alone.
pub proof fn law_failed_trials_never_win(opened: bool, idat_size: usize, zi: u8, f: FileState, bytes: Option<Vec<u8>>)
    ensures
        !opened || idat_size == 0 ==> better(
            (f.best_size, f.best_config, f.best_bytes),
            f.trials@[0],
            outcome_size(opened, idat_size),
            bytes,
            zi,
        ) == (f.best_size, f.best_config, f.best_bytes),
        opened && idat_size > 0 ==> outcome_size(opened, idat_size) == idat_size,
        is_file_needed(opened, idat_size, zi) <==> opened && idat_size > 0 && zi == 2,
{
}

/// The file that was put aside is given up only when another one has taken
/// its place and no backup is wanted. If that fails, it goes back.
pub proof fn law_no_file_is_lost(is_in_place: bool, success: bool, backup: bool)
    ensures
        !is_in_place ==> put_aside(is_in_place, success, backup) is Nothing,
        is_in_place && !success ==> put_aside(is_in_place, success, backup) is Restore,
        is_in_place && success ==> (put_aside(is_in_place, success, backup) is Keep <==> backup),
        is_in_place && success ==> (put_aside(is_in_place, success, backup) is Remove <==> !backup),
{
}

/// The size that is reported: none for a file that stays, the size that was
/// written, or the old size where writing failed. With it, a file that was not
/// written counts as having the size that it had.
pub proof fn law_reported_sizes(keep: bool, success: bool, written: u64, orig_size: u64)
    ensures
        size_after(size_to_report(keep, success, written, orig_size), orig_size) == (if !keep && success
            && written > 0 {
            written
        } else {
            orig_size
        }),
        keep ==> size_to_report(keep, success, written, orig_size) == 0,
{
}

/// Directories are looked into one level below another, down to the limit and
/// no further; and not at all unless that is asked for.
pub proof fn law_depths(depth: usize, max_depth: Option<usize>, recursive: bool)
    ensures
        !recursive ==> next_depth(depth, max_depth, recursive) is None,
        next_depth(depth, max_depth, recursive) matches Some(d) ==> d == depth + 1 && (max_depth matches Some(limit)
            ==> d <= limit),
        recursive && depth < usize::MAX && (max_depth matches Some(limit) ==> depth + 1 <= limit) ==> next_depth(
            depth,
            max_depth,
            recursive,
        ) is Some,
{
}

/// The columns of the display: half of the width for the name, 20 for the
/// trials and 10 for the percentage; the bar takes what is left when 7 more are
/// spared for the gaps, or 10 where nothing is left. Narrow displays count as 60
/// wide.
pub proof fn law_columns(width: int)
    ensures
        ({
            let (name, trials, bar, percent) = column_widths(width);
            &&& trials == 20 && percent == 10
            &&& width >= 60 ==> 2 * name == width || 2 * name + 1 == width
            &&& width >= 75 ==> name + trials + bar + percent + 7 == width
            &&& width < 75 ==> bar == 10
            &&& width < 60 ==> column_widths(width) == column_widths(60)
        }),
{
}

/// The display is brought up to date at most ten times a second, but always
/// the first time, when that is forced, and at the end.
pub proof fn law_updates(force: bool, is_complete: bool, millis: u128)
    ensures
        is_due(force, is_complete, None),
        is_due(true, is_complete, Some(millis)),
        is_due(force, true, Some(millis)),
        is_due(false, false, Some(millis)) <==> millis >= 100,
{
}

/// A run starts if there is something to work on: files, or an input in another
/// format. A request for help comes first.
pub proof fn law_startup(cli: CliView)
    ensures
        startup_with(cli) is Help <==> cli.show_help,
        startup_with(cli) is Run <==> !cli.show_help && (cli.files.len() > 0 || cli.external_input is Some),
{
}

/// The short name of a color type, and its number of channels.
pub proof fn law_color_types(color_type: u8)
    ensures
        color_type == 1 || color_type == 5 || color_type > 6 ==> short_label(color_type) == "Unknown"@ && channels_of(
            color_type,
        ) == 0,
        short_label(0) == "Y"@ && channels_of(0) == 1,
        short_label(2) == "RGB"@ && channels_of(2) == 3,
        short_label(3) == "Palette"@ && channels_of(3) == 1,
        short_label(4) == "YA"@ && channels_of(4) == 2,
        short_label(6) == "RGBA"@ && channels_of(6) == 4,
{
}

/// What is said about a finished file: whether its depth or its colors were
/// reduced, and the settings of the best trial.
pub proof fn law_what_is_said(f: FileState, zi: u8)
    ensures
        ({
            let is_shallower = f.out_bit_depth < f.orig_bit_depth;
            let is_other = f.out_color_type != f.orig_color_type;
            let from = short_label(f.orig_color_type);
            let to = short_label(f.out_color_type);
            let a = channels_of(f.orig_color_type);
            let b = channels_of(f.out_color_type);
            let depth = if is_shallower {
                "bit depth: "@ + decimal(f.orig_bit_depth as nat) + "->"@ + decimal(f.out_bit_depth as nat)
            } else {
                decimal(f.out_bit_depth as nat) + "-bit"@
            };
            let color = if !is_other {
                to
            } else if a != b && a > 0 && b > 0 {
                "channels: "@ + decimal(a as nat) + "->"@ + decimal(b as nat) + " ("@ + from + "->"@ + to + ")"@
            } else {
                "color: "@ + from + "->"@ + to
            };
            let best = f.best_config->0;
            let settings = if zi == 2 {
                "-zc"@ + signed_decimal(best.zc as int) + " -f"@ + decimal(best.f as nat)
            } else {
                "-zc"@ + signed_decimal(best.zc as int) + " -zm"@ + signed_decimal(best.zm as int) + " -zs"@
                    + signed_decimal(best.zs as int) + " -f"@ + decimal(best.f as nat)
            };
            let said = info_text(f, zi);
            match (is_shallower || is_other, f.best_config is Some) {
                (false, false) => said == "no reduction"@,
                (false, true) => said == settings,
                (true, false) => said == depth + ", "@ + color,
                (true, true) => said == depth + ", "@ + color + ", "@ + settings,
            }
        }),
{
    let is_reduced = f.out_bit_depth < f.orig_bit_depth || f.out_color_type != f.orig_color_type;
    if f.best_config is Some {
        let settings = settings_part(f.best_config->0, zi);
        if is_reduced {
            let first = depth_part(f) + ", "@ + color_part(f);
            let parts = seq![first] + seq![settings];
            assert(parts.drop_last() =~= seq![first]);
            assert(joined(parts, ", "@) == joined(parts.drop_last(), ", "@) + ", "@ + settings);
        } else {
            assert(Seq::<Seq<char>>::empty() + seq![settings] =~= seq![settings]);
        }
    } else if is_reduced {
        let first = depth_part(f) + ", "@ + color_part(f);
        assert(seq![first] + Seq::<Seq<char>>::empty() =~= seq![first]);
    }
}

/// What is said when a file is taken up: its name, its width and height, its
/// depth and its color type.
pub proof fn law_what_is_said_first(f: FileState)
    ensures
        opened_text(f) == "Opened "@ + f.rel_path@ + " -> "@ + decimal(f.width as nat) + " x "@ + decimal(
            f.height as nat,
        ) + " / "@ + decimal(f.orig_bit_depth as nat) + " bit / "@ + short_label(f.orig_color_type),
{
}

/// What comes of preparing a file is taken over into its state.
pub proof fn law_prepared_states(f: FileState, p: PreparedData)
    ensures
        ({
            let g = with_prepared(f, p);
            &&& g.task == f.task && g.rel_path == f.rel_path
            &&& g.width == p.width && g.height == p.height
            &&& g.orig_bit_depth == p.orig_bit_depth && g.orig_color_type == p.orig_color_type
            &&& g.out_bit_depth == p.out_bit_depth && g.out_color_type == p.out_color_type
            &&& g.image_data == p.image_data && g.shared_palette == p.shared_palette && g.shared_trns == p.shared_trns
            &&& g.trials == p.trials && g.total_trials == p.total_trials && g.total_scanlines == p.total_scanlines
            &&& g.best_size == p.best_size && g.best_config == p.best_config && g.best_bytes == f.best_bytes
            &&& g.orig_idat_size == p.orig_idat_size && g.is_skipped == p.is_skipped && g.error_msg == p.error_msg
            &&& g.completed_trials == f.completed_trials && g.completed_scanlines == f.completed_scanlines
            &&& g.is_prepared && !g.is_preparing
            &&& g.is_processed <==> p.error_msg is Some || p.is_skipped || p.trials@.len() == 0 && p.best_config is None
        }),
{
}

/// Which work comes next: nothing more if all files are done; else a trial, of
/// the file that was taken up first among those that have one left; else the
/// next file is prepared, if there is one and no other is being prepared; else
/// there is nothing to do for now.
pub proof fn law_order_of_work(s: SchedulerView)
    requires
        s.wf(),
    ensures
        ({
            let is_left = |k: int|
                s.files[s.active[k] as int].next_trial_idx < s.files[s.active[k] as int].trials@.len();
            let any_left = exists|k: int| 0 <= k < s.active.len() && #[trigger] is_left(k);
            let is_busy = exists|i: int| 0 <= i < s.files.len() && (#[trigger] s.files[i]).is_preparing;
            &&& next_task(s) is Terminate <==> s.finished == s.files.len()
            &&& next_task(s) is Trial <==> s.finished < s.files.len() && any_left
            &&& next_task(s) is Prepare <==> s.finished < s.files.len() && !any_left && !is_busy && s.next
                < s.files.len()
            &&& next_task(s) matches WorkTask::Trial { file_idx, trial_idx } ==> exists|k: int| {
                &&& 0 <= k < s.active.len()
                &&& #[trigger] is_left(k)
                &&& s.active[k] == file_idx
                &&& trial_idx == s.files[file_idx as int].next_trial_idx
                &&& forall|m: int| 0 <= m < k ==> !#[trigger] is_left(m)
            }
        }),
{
    let is_left = |k: int| s.files[s.active[k] as int].next_trial_idx < s.files[s.active[k] as int].trials@.len();
    lemma_first_open(s.files, s.active);
    lemma_count_bound(s.files);
    let k = first_open(s.files, s.active);
    assert forall|m: int| 0 <= m < s.active.len() implies (#[trigger] is_left(m) <==> has_trial(
        s.files[s.active[m] as int],
    )) by {
        assert(s.active[m] < s.next && is_running(s.files[s.active[m] as int]));
    }
    assert forall|m: int| 0 <= m < k implies !#[trigger] is_left(m) by {
        assert(!has_trial(s.files[s.active[m] as int]));
    }
    if k < s.active.len() {
        assert(is_left(k));
    }
}

}
