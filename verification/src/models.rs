//! Shared data structures.
use std::path::PathBuf;
use std::sync::Arc;
use vstd::prelude::*;

verus! {

/// A file system path. It is carried through and never looked into.
#[verifier::external_type_specification]
#[verifier::external_body]
pub struct ExPathBuf(PathBuf);

/// The configuration of a single compression trial.
#[derive(Debug, Clone, Copy, PartialEq, Eq, Structural)]
pub struct TrialConfig {
    pub zc: i32,
    pub zm: i32,
    pub zs: i32,
    pub f: u8,
}

/// All parsed command-line arguments.
#[derive(Debug)]
pub struct CliArgs {
    pub files: Vec<String>,
    pub external_input: Option<String>,
    pub opt_level: u8,
    pub mt: usize,
    pub zi: u8,
    pub zc: Option<Vec<i32>>,
    pub zm: Option<Vec<i32>>,
    pub zs: Option<Vec<i32>>,
    pub f: Option<Vec<u8>>,
    pub backup: bool,
    pub simulate: bool,
    pub quiet: bool,
    pub nc: bool,
    pub nb: bool,
    pub np: bool,
    pub nx: bool,
    pub nz: bool,
    pub out_file: Option<String>,
    pub out_dir: Option<String>,
    pub recursive: bool,
    pub max_depth: Option<usize>,
    pub show_help: bool,
    pub force_trials: bool,
    pub force_reenc: bool,
    pub cmd_options: String,
    /// What to tell the user when the arguments cannot be used as given.
    pub usage_error: Option<String>,
}

/// A target file queued for processing.
#[derive(Debug)]
pub struct FileTask {
    pub in_path: PathBuf,
    pub out_path: PathBuf,
    pub is_external: bool,
    pub orig_size: u64,
}

/// An image as it was loaded: rows of `stride` bytes, top row first.
#[derive(Debug)]
pub struct LoadedImage {
    pub width: u32,
    pub height: u32,
    pub bit_depth: u8,
    pub color_type: u8,
    pub stride: usize,
    pub raw_pixels: Vec<u8>,
    pub orig_idat_size: usize,
}

/// What an image is, with its pixels as a sequence.
#[verifier::ext_equal]
pub struct LoadedView {
    pub width: u32,
    pub height: u32,
    pub bit_depth: u8,
    pub color_type: u8,
    pub stride: int,
    pub pixels: Seq<u8>,
    pub orig_idat_size: int,
}

impl View for LoadedImage {
    type V = LoadedView;

    open spec fn view(&self) -> LoadedView {
        LoadedView {
            width: self.width,
            height: self.height,
            bit_depth: self.bit_depth,
            color_type: self.color_type,
            stride: self.stride as int,
            pixels: self.raw_pixels@,
            orig_idat_size: self.orig_idat_size as int,
        }
    }
}

/// The result of the bit depth and color type reductions.
#[derive(Debug)]
pub struct ReductionResult {
    pub out_color_type: u8,
    pub out_bit_depth: u8,
    pub final_palette: Option<Vec<u8>>,
    pub final_trns: Option<Vec<u8>>,
    /// One line for each reduction that was made, empty in quiet mode.
    pub notes: Vec<String>,
}

/// A file being worked on: what is known of it, and how far the work is.
#[derive(Debug)]
pub struct FileState {
    pub task: FileTask,
    pub rel_path: String,
    pub total_trials: usize,
    pub completed_trials: usize,
    pub total_scanlines: usize,
    pub completed_scanlines: usize,
    pub best_size: usize,
    pub best_config: Option<TrialConfig>,
    pub best_bytes: Option<Vec<u8>>,
    pub orig_idat_size: usize,
    pub image_data: Option<Arc<Vec<u8>>>,
    pub shared_palette: Option<Arc<Vec<u8>>>,
    pub shared_trns: Option<Arc<Vec<u8>>>,
    pub width: u32,
    pub height: u32,
    pub orig_bit_depth: u8,
    pub orig_color_type: u8,
    pub out_bit_depth: u8,
    pub out_color_type: u8,
    pub trials: Vec<TrialConfig>,
    pub next_trial_idx: usize,
    pub is_skipped: bool,
    pub error_msg: Option<String>,
    pub is_processed: bool,
    pub is_prepared: bool,
    pub is_preparing: bool,
}

/// What decoding and reducing a file gives.
#[derive(Debug)]
pub struct PreparedData {
    pub total_trials: usize,
    pub total_scanlines: usize,
    pub best_size: usize,
    pub best_config: Option<TrialConfig>,
    pub orig_idat_size: usize,
    pub image_data: Option<Arc<Vec<u8>>>,
    pub shared_palette: Option<Arc<Vec<u8>>>,
    pub shared_trns: Option<Arc<Vec<u8>>>,
    pub width: u32,
    pub height: u32,
    pub orig_bit_depth: u8,
    pub orig_color_type: u8,
    pub out_bit_depth: u8,
    pub out_color_type: u8,
    pub trials: Vec<TrialConfig>,
    pub is_skipped: bool,
    pub error_msg: Option<String>,
    /// One line for each reduction that was made, empty in quiet mode.
    pub notes: Vec<String>,
}

impl FileState {
    /// Nothing has been done for the file yet.
    pub open spec fn is_fresh(&self) -> bool {
        &&& self.total_trials == 0
        &&& self.completed_trials == 0
        &&& self.total_scanlines == 0
        &&& self.completed_scanlines == 0
        &&& self.best_size == usize::MAX
        &&& self.best_config is None
        &&& self.best_bytes is None
        &&& self.orig_idat_size == 0
        &&& self.image_data is None
        &&& self.shared_palette is None
        &&& self.shared_trns is None
        &&& self.width == 0
        &&& self.height == 0
        &&& self.orig_bit_depth == 0
        &&& self.orig_color_type == 0
        &&& self.out_bit_depth == 0
        &&& self.out_color_type == 0
        &&& self.trials@.len() == 0
        &&& self.next_trial_idx == 0
        &&& !self.is_skipped
        &&& self.error_msg is None
        &&& !self.is_processed
        &&& !self.is_prepared
        &&& !self.is_preparing
    }

    /// A file that nothing has been done for.
    pub fn new(task: FileTask, rel_path: String) -> (state: FileState)
        ensures
            state.is_fresh(),
            state.task == task,
            state.rel_path == rel_path,
    {
        FileState {
            task,
            rel_path,
            total_trials: 0,
            completed_trials: 0,
            total_scanlines: 0,
            completed_scanlines: 0,
            best_size: usize::MAX,
            best_config: None,
            best_bytes: None,
            orig_idat_size: 0,
            image_data: None,
            shared_palette: None,
            shared_trns: None,
            width: 0,
            height: 0,
            orig_bit_depth: 0,
            orig_color_type: 0,
            out_bit_depth: 0,
            out_color_type: 0,
            trials: Vec::new(),
            next_trial_idx: 0,
            is_skipped: false,
            error_msg: None,
            is_processed: false,
            is_prepared: false,
            is_preparing: false,
        }
    }
}

}
