//! From a loaded image to the trials that are run on it.
use crate::cli::list_of;
use crate::decoders::{external_image, is_loadable, law_external_images_are_sound};
use crate::lossless::law_whole_images_are_in_range;
use crate::models::{CliArgs, LoadedImage, LoadedView, PreparedData, ReductionResult, TrialConfig};
use crate::reduction::{can_reduce, reduce_image, reduction, reduction_in_range, Reduced};
use crate::text::texts;
use crate::trials::{
    all_trials, build_trial_list, by_rank, get_opt_combinations, get_zopfli_opt_combinations, preset_f, preset_zc,
    preset_zm, preset_zs, zopfli_filters, zopfli_levels,
};
use std::sync::Arc;
use vstd::prelude::*;

verus! {

/// The given list, or else the preset.
pub open spec fn list_or<T>(list: Option<Vec<T>>, preset: Seq<T>) -> Seq<T> {
    match list {
        Some(l) => l@,
        None => preset,
    }
}

/// The trials for an image with the given color type and bit depth, in the
/// order in which they are run.
pub open spec fn trials_for(cli: &CliArgs, color_type: u8, bit_depth: u8) -> Seq<TrialConfig> {
    let level = cli.opt_level as int;
    if cli.zi == 2 {
        by_rank(
            all_trials(
                list_or(cli.zc, zopfli_levels(level)),
                seq![8],
                seq![0],
                list_or(cli.f, zopfli_filters(level)),
            ),
        )
    } else {
        by_rank(
            all_trials(
                list_or(cli.zc, preset_zc(level)),
                list_or(cli.zm, preset_zm(level)),
                list_or(cli.zs, preset_zs(level)),
                list_or(cli.f, preset_f(level, color_type, bit_depth)),
            ),
        )
    }
}

fn given_or<'a, T>(list: &'a Option<Vec<T>>, preset: &'a Vec<T>) -> (r: &'a Vec<T>)
    ensures
        r@ == list_or(*list, preset@),
{
    match list {
        Some(l) => l,
        None => preset,
    }
}

/// The trials for an image, in the order in which they are run.
pub fn plan_trials(cli: &CliArgs, color_type: u8, bit_depth: u8) -> (trials: Vec<TrialConfig>)
    ensures
        trials@ == trials_for(cli, color_type, bit_depth),
{
    if cli.zi == 2 {
        let (zc, f) = get_zopfli_opt_combinations(cli.opt_level);
        let zm: Vec<i32> = vec![8];
        let zs: Vec<i32> = vec![0];
        assert(zm@ =~= seq![8i32]);
        assert(zs@ =~= seq![0i32]);
        build_trial_list(
            given_or(&cli.zc, &zc).as_slice(),
            zm.as_slice(),
            zs.as_slice(),
            given_or(&cli.f, &f).as_slice(),
        )
    } else {
        let (zc, zm, zs, f) = get_opt_combinations(cli.opt_level, color_type, bit_depth);
        build_trial_list(
            given_or(&cli.zc, &zc).as_slice(),
            given_or(&cli.zm, &zm).as_slice(),
            given_or(&cli.zs, &zs).as_slice(),
            given_or(&cli.f, &f).as_slice(),
        )
    }
}

/// The bytes behind a shared list, if there is one.
pub open spec fn shared(v: Option<Arc<Vec<u8>>>) -> Option<Seq<u8>> {
    match v {
        Some(l) => Some((*l)@),
        None => None,
    }
}

/// A file that could not be loaded.
pub open spec fn is_failed(p: PreparedData, message: Seq<char>) -> bool {
    &&& p.total_trials == 0
    &&& p.total_scanlines == 0
    &&& p.best_size == usize::MAX
    &&& p.best_config is None
    &&& p.orig_idat_size == 0
    &&& p.image_data is None
    &&& p.shared_palette is None
    &&& p.shared_trns is None
    &&& p.width == 0
    &&& p.height == 0
    &&& p.orig_bit_depth == 0
    &&& p.orig_color_type == 0
    &&& p.out_bit_depth == 0
    &&& p.out_color_type == 0
    &&& p.trials@.len() == 0
    &&& p.is_skipped
    &&& p.error_msg matches Some(text) && text@ == message
    &&& p.notes@.len() == 0
}

/// A file whose compressed pixel data are kept: nothing is tried, and the
/// size to beat is the size that it has.
pub open spec fn is_untouched(p: PreparedData, image: LoadedImage) -> bool {
    &&& p.total_trials == 1
    &&& p.total_scanlines == 1
    &&& p.best_size == image.orig_idat_size
    &&& p.best_config == Some(TrialConfig { zc: 1, zm: 8, zs: 0, f: 0 })
    &&& p.orig_idat_size == image.orig_idat_size
    &&& p.image_data is None
    &&& p.shared_palette is None
    &&& p.shared_trns is None
    &&& p.width == image.width
    &&& p.height == image.height
    &&& p.orig_bit_depth == image.bit_depth
    &&& p.orig_color_type == image.color_type
    &&& p.out_bit_depth == image.bit_depth
    &&& p.out_color_type == image.color_type
    &&& p.trials@.len() == 0
    &&& !p.is_skipped
    &&& p.error_msg is None
    &&& p.notes@.len() == 0
}

/// The number of rows that all trials encode together, as far as it fits.
pub open spec fn scanlines(trials: nat, height: u32) -> usize {
    if trials * height <= usize::MAX { (trials * height) as usize } else { usize::MAX }
}

/// The reduction of a loaded image.
pub open spec fn reduced(cli: &CliArgs, image: LoadedImage) -> Reduced {
    reduction(
        cli,
        image.width,
        image.height,
        image.color_type,
        image.bit_depth,
        image.stride,
        image.raw_pixels@,
    )
}

/// A file that is ready for its trials: the image is reduced, and nothing
/// has been found yet.
pub open spec fn is_ready(p: PreparedData, cli: &CliArgs, image: LoadedImage) -> bool {
    let out = reduced(cli, image);
    &&& p.trials@ == trials_for(cli, out.color_type, out.bit_depth)
    &&& p.total_trials == p.trials@.len()
    &&& p.total_scanlines == (if cli.zi == 2 { 0 } else { scanlines(p.trials@.len(), image.height) })
    &&& p.best_size == usize::MAX
    &&& p.best_config is None
    &&& p.orig_idat_size == image.orig_idat_size
    &&& shared(p.image_data) == Some(out.pixels)
    &&& shared(p.shared_palette) == out.palette
    &&& shared(p.shared_trns) == out.trns
    &&& p.width == image.width
    &&& p.height == image.height
    &&& p.orig_bit_depth == image.bit_depth
    &&& p.orig_color_type == image.color_type
    &&& p.out_bit_depth == out.bit_depth
    &&& p.out_color_type == out.color_type
    &&& !p.is_skipped
    &&& p.error_msg is None
    &&& texts(p.notes@) == out.notes
}

/// The reductions can be asked for a loaded image.
pub open spec fn is_preparable(cli: &CliArgs, image: LoadedImage) -> bool {
    cli.nz || reduction_in_range(
        cli,
        image.width,
        image.height,
        image.color_type,
        image.bit_depth,
        image.stride,
        image.raw_pixels@,
    )
}

/// Whether `prepare_file_data` can be asked for a loaded image.
pub fn can_prepare(cli: &CliArgs, image: &LoadedImage) -> (r: bool)
    ensures
        r == is_preparable(cli, *image),
{
    cli.nz || can_reduce(
        cli,
        image.width,
        image.height,
        image.color_type,
        image.bit_depth,
        image.stride,
        &image.raw_pixels,
    )
}

fn failed(message: String) -> (p: PreparedData)
    ensures
        is_failed(p, message@),
{
    PreparedData {
        total_trials: 0,
        total_scanlines: 0,
        best_size: usize::MAX,
        best_config: None,
        orig_idat_size: 0,
        image_data: None,
        shared_palette: None,
        shared_trns: None,
        width: 0,
        height: 0,
        orig_bit_depth: 0,
        orig_color_type: 0,
        out_bit_depth: 0,
        out_color_type: 0,
        trials: Vec::new(),
        is_skipped: true,
        error_msg: Some(message),
        notes: Vec::new(),
    }
}

fn share(v: Option<Vec<u8>>) -> (r: Option<Arc<Vec<u8>>>)
    ensures
        shared(r) == list_of(v),
{
    match v {
        Some(l) => Some(Arc::new(l)),
        None => None,
    }
}

fn prepare_image(cli: &CliArgs, image: LoadedImage) -> (p: PreparedData)
    requires
        is_preparable(cli, image),
    ensures
        if cli.nz { is_untouched(p, image) } else { is_ready(p, cli, image) },
{
    let LoadedImage { width, height, bit_depth, color_type, stride, raw_pixels, orig_idat_size } = image;
    if cli.nz {
        return PreparedData {
            total_trials: 1,
            total_scanlines: 1,
            best_size: orig_idat_size,
            best_config: Some(TrialConfig { zc: 1, zm: 8, zs: 0, f: 0 }),
            orig_idat_size,
            image_data: None,
            shared_palette: None,
            shared_trns: None,
            width,
            height,
            orig_bit_depth: bit_depth,
            orig_color_type: color_type,
            out_bit_depth: bit_depth,
            out_color_type: color_type,
            trials: Vec::new(),
            is_skipped: false,
            error_msg: None,
            notes: Vec::new(),
        };
    }
    let mut pixels = raw_pixels;
    let ReductionResult { out_color_type, out_bit_depth, final_palette, final_trns, notes } = reduce_image(
        cli,
        width,
        height,
        color_type,
        bit_depth,
        stride,
        &mut pixels,
    );
    let trials = plan_trials(cli, out_color_type, out_bit_depth);
    let total_trials: usize = trials.len();
    proof {
        assert(0 <= total_trials * height <= usize::MAX * u32::MAX) by (nonlinear_arith)
            requires
                0 <= total_trials <= usize::MAX,
                0 <= height <= u32::MAX,
        ;
    }
    let rows: u128 = total_trials as u128 * height as u128;
    let total_scanlines: usize = if cli.zi == 2 {
        0
    } else if rows <= usize::MAX as u128 {
        rows as usize
    } else {
        usize::MAX
    };
    PreparedData {
        total_trials,
        total_scanlines,
        best_size: usize::MAX,
        best_config: None,
        orig_idat_size,
        image_data: share(Some(pixels)),
        shared_palette: share(final_palette),
        shared_trns: share(final_trns),
        width,
        height,
        orig_bit_depth: bit_depth,
        orig_color_type: color_type,
        out_bit_depth,
        out_color_type,
        trials,
        is_skipped: false,
        error_msg: None,
        notes,
    }
}

/// If there are trials to run, they are counted, and none has been run.
pub open spec fn is_untried(p: PreparedData) -> bool {
    p.trials@.len() > 0 ==> p.total_trials == p.trials@.len() && p.best_size == usize::MAX && p.best_config is None
}

/// Prepares a file from what came of loading it.
pub fn prepare_file_data(cli: &CliArgs, loaded: Result<LoadedImage, String>) -> (p: PreparedData)
    requires
        loaded matches Ok(image) ==> is_preparable(cli, image),
    ensures
        match loaded {
            Ok(image) => if cli.nz { is_untouched(p, image) } else { is_ready(p, cli, image) },
            Err(message) => is_failed(p, message@),
        },
        is_untried(p),
{
    match loaded {
        Ok(image) => prepare_image(cli, image),
        Err(message) => failed(message),
    }
}

/// Every image that was loaded from another format can be prepared.
pub proof fn law_external_images_can_be_prepared(cli: &CliArgs, data: Seq<u8>, image: LoadedImage)
    requires
        is_loadable(data),
        external_image(data) == Ok::<LoadedView, Seq<char>>(image@),
    ensures
        is_preparable(cli, image),
{
    law_external_images_are_sound(data);
    law_whole_images_are_in_range(
        cli,
        image.width,
        image.height,
        image.color_type,
        image.bit_depth,
        image.stride,
        image.raw_pixels@,
    );
}

}
