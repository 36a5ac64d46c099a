//! What is written for a file, and what is said about it.
use crate::encoding::{final_text, text_for_file};
use crate::models::{CliArgs, FileState, TrialConfig};
use crate::text::{append_decimal, append_signed, decimal, join_strings, joined, signed_decimal, texts};
use crate::utils::{channels_of, color_type_channels, color_type_short_name, short_label};
use vstd::prelude::*;
use vstd::string::StringExecFns;

verus! {

/// What is written for a file whose trials are done.
#[derive(Debug)]
pub enum WritePlan {
    /// The file stays as it is.
    Keep,
    /// There is nothing that could be written.
    NoData,
    /// The outcome of the best trial is written as it is.
    WriteBest,
    /// The file is copied with its pixel data, and with this text put in.
    Copy(String),
    /// The image is encoded with these settings, and with this text put in.
    Encode(TrialConfig, String),
}

/// What a plan is.
pub enum PlanView {
    Keep,
    NoData,
    WriteBest,
    Copy(Seq<char>),
    Encode(TrialConfig, Seq<char>),
}

impl View for WritePlan {
    type V = PlanView;

    open spec fn view(&self) -> PlanView {
        match self {
            WritePlan::Keep => PlanView::Keep,
            WritePlan::NoData => PlanView::NoData,
            WritePlan::WriteBest => PlanView::WriteBest,
            WritePlan::Copy(text) => PlanView::Copy(text@),
            WritePlan::Encode(best, text) => PlanView::Encode(*best, text@),
        }
    }
}

/// The file stays as it is: in a simulation, if there is nothing to write,
/// and if the pixel data have not become smaller. The last does not count
/// if writing is forced, for images from other formats, and where pixel
/// data are not recoded.
pub open spec fn is_kept(cli: &CliArgs, f: FileState) -> bool {
    ||| cli.simulate
    ||| f.is_skipped
    ||| f.best_config is None
    ||| !cli.force_reenc && !f.task.is_external && f.best_size >= f.orig_idat_size && !cli.nz
}

/// What is written for a file.
pub open spec fn write_plan(cli: &CliArgs, f: FileState) -> PlanView {
    if is_kept(cli, f) {
        PlanView::Keep
    } else {
        let text = final_text(f.best_config->0, cli.opt_level, cli.cmd_options@);
        if f.best_bytes is Some {
            PlanView::WriteBest
        } else if cli.nz && !f.task.is_external {
            PlanView::Copy(text)
        } else if f.image_data is Some {
            PlanView::Encode(f.best_config->0, text)
        } else {
            PlanView::NoData
        }
    }
}

/// Decides what is written for a file.
pub fn plan_write(cli: &CliArgs, f: &FileState) -> (plan: WritePlan)
    ensures
        plan@ == write_plan(cli, *f),
{
    if cli.simulate || f.is_skipped {
        return WritePlan::Keep;
    }
    let best: TrialConfig = match &f.best_config {
        Some(best) => *best,
        None => {
            return WritePlan::Keep;
        },
    };
    if !cli.force_reenc && !f.task.is_external && f.best_size >= f.orig_idat_size && !cli.nz {
        return WritePlan::Keep;
    }
    if f.best_bytes.is_some() {
        return WritePlan::WriteBest;
    }
    let text = text_for_file(&best, cli.opt_level, cli.cmd_options.as_str());
    if cli.nz && !f.task.is_external {
        WritePlan::Copy(text)
    } else if f.image_data.is_some() {
        WritePlan::Encode(best, text)
    } else {
        WritePlan::NoData
    }
}

/// A file is never replaced by one with pixel data that are not smaller,
/// unless that is forced, it comes from another format, or pixel data are
/// not recoded at all.
pub proof fn law_no_replacement_without_gain(cli: &CliArgs, f: FileState)
    requires
        !cli.force_reenc,
        !f.task.is_external,
        !cli.nz,
    ensures
        write_plan(cli, f) is Keep || f.best_size < f.orig_idat_size,
{
}

/// A simulation writes nothing.
pub proof fn law_simulation_writes_nothing(cli: &CliArgs, f: FileState)
    requires
        cli.simulate,
    ensures
        write_plan(cli, f) is Keep,
{
}

/// The size that is reported for a file.
pub open spec fn size_to_report(keep: bool, success: bool, written: u64, orig_size: u64) -> u64 {
    if keep {
        0
    } else if success {
        written
    } else {
        orig_size
    }
}

/// The size that is reported for a file: what has been written, or the size
/// that it had if writing failed, and 0 if it stays as it is.
pub fn reported_size(keep: bool, success: bool, written: u64, orig_size: u64) -> (n: u64)
    ensures
        n == size_to_report(keep, success, written, orig_size),
        n == (if keep { 0 } else if success { written } else { orig_size }),
{
    if keep {
        0
    } else if success {
        written
    } else {
        orig_size
    }
}

/// What is done with the file that was put aside, once its place is taken or
/// has stayed empty.
#[derive(Debug, Clone, Copy, PartialEq, Eq, Structural)]
pub enum PutAside {
    /// Nothing was put aside.
    Nothing,
    /// It is removed.
    Remove,
    /// It stays as a backup.
    Keep,
    /// It goes back to its place.
    Restore,
}

/// What is done with the file that was put aside.
pub open spec fn put_aside(is_in_place: bool, success: bool, backup: bool) -> PutAside {
    if !is_in_place {
        PutAside::Nothing
    } else if !success {
        PutAside::Restore
    } else if backup {
        PutAside::Keep
    } else {
        PutAside::Remove
    }
}

/// Decides what is done with the file that was put aside.
pub fn after_write(is_in_place: bool, success: bool, backup: bool) -> (a: PutAside)
    ensures
        a == put_aside(is_in_place, success, backup),
        a is Nothing <==> !is_in_place,
        a is Restore <==> is_in_place && !success,
        a is Remove <==> is_in_place && success && !backup,
        a is Keep <==> is_in_place && success && backup,
{
    if !is_in_place {
        PutAside::Nothing
    } else if !success {
        PutAside::Restore
    } else if backup {
        PutAside::Keep
    } else {
        PutAside::Remove
    }
}

/// The name under which a backup of the file at `path` is kept.
pub fn backup_name(path: &str) -> (name: String)
    ensures
        name@ == path@ + ".bak"@,
{
    let mut name: String = path.to_string();
    name.append(".bak");
    name
}

/// What is said when a file is taken up.
pub open spec fn opened_text(f: FileState) -> Seq<char> {
    "Opened "@ + f.rel_path@ + " -> "@ + decimal(f.width as nat) + " x "@ + decimal(f.height as nat) + " / "@ + decimal(
        f.orig_bit_depth as nat,
    ) + " bit / "@ + short_label(f.orig_color_type)
}

/// What is said when a file is taken up.
pub fn opened_line(f: &FileState) -> (s: String)
    ensures
        s@ == opened_text(*f),
{
    let mut s: String = "Opened ".to_string();
    s.append(f.rel_path.as_str());
    s.append(" -> ");
    append_decimal(&mut s, f.width as u128);
    s.append(" x ");
    append_decimal(&mut s, f.height as u128);
    s.append(" / ");
    append_decimal(&mut s, f.orig_bit_depth as u128);
    s.append(" bit / ");
    s.append(color_type_short_name(f.orig_color_type));
    assert(s@ =~= opened_text(*f));
    s
}

pub open spec fn depth_part(f: FileState) -> Seq<char> {
    if f.out_bit_depth < f.orig_bit_depth {
        "bit depth: "@ + decimal(f.orig_bit_depth as nat) + "->"@ + decimal(f.out_bit_depth as nat)
    } else {
        decimal(f.out_bit_depth as nat) + "-bit"@
    }
}

pub open spec fn color_part(f: FileState) -> Seq<char> {
    let from = channels_of(f.orig_color_type);
    let to = channels_of(f.out_color_type);
    if f.out_color_type == f.orig_color_type {
        short_label(f.out_color_type)
    } else if from != to && from > 0 && to > 0 {
        "channels: "@ + decimal(from as nat) + "->"@ + decimal(to as nat) + " ("@ + short_label(f.orig_color_type)
            + "->"@ + short_label(f.out_color_type) + ")"@
    } else {
        "color: "@ + short_label(f.orig_color_type) + "->"@ + short_label(f.out_color_type)
    }
}

pub open spec fn settings_part(t: TrialConfig, zi: u8) -> Seq<char> {
    if zi == 2 {
        "-zc"@ + signed_decimal(t.zc as int) + " -f"@ + decimal(t.f as nat)
    } else {
        "-zc"@ + signed_decimal(t.zc as int) + " -zm"@ + signed_decimal(t.zm as int) + " -zs"@ + signed_decimal(
            t.zs as int,
        ) + " -f"@ + decimal(t.f as nat)
    }
}

/// What is said about a finished file: the reductions, if there were any,
/// and the settings of the best trial, if there is one.
pub open spec fn info_text(f: FileState, zi: u8) -> Seq<char> {
    let is_reduced = f.out_bit_depth < f.orig_bit_depth || f.out_color_type != f.orig_color_type;
    let parts = (if is_reduced {
        seq![depth_part(f) + ", "@ + color_part(f)]
    } else {
        Seq::empty()
    }) + (match f.best_config {
        Some(best) => seq![settings_part(best, zi)],
        None => Seq::empty(),
    });
    if parts.len() == 0 {
        "no reduction"@
    } else {
        joined(parts, ", "@)
    }
}

fn describe_depth(f: &FileState) -> (s: String)
    ensures
        s@ == depth_part(*f),
{
    let mut s: String = String::new();
    if f.out_bit_depth < f.orig_bit_depth {
        s.append("bit depth: ");
        append_decimal(&mut s, f.orig_bit_depth as u128);
        s.append("->");
        append_decimal(&mut s, f.out_bit_depth as u128);
    } else {
        append_decimal(&mut s, f.out_bit_depth as u128);
        s.append("-bit");
    }
    assert(s@ =~= depth_part(*f));
    s
}

fn describe_color(f: &FileState) -> (s: String)
    ensures
        s@ == color_part(*f),
{
    let from: u8 = color_type_channels(f.orig_color_type);
    let to: u8 = color_type_channels(f.out_color_type);
    let mut s: String = String::new();
    if f.out_color_type == f.orig_color_type {
        s.append(color_type_short_name(f.out_color_type));
    } else if from != to && from > 0 && to > 0 {
        s.append("channels: ");
        append_decimal(&mut s, from as u128);
        s.append("->");
        append_decimal(&mut s, to as u128);
        s.append(" (");
        s.append(color_type_short_name(f.orig_color_type));
        s.append("->");
        s.append(color_type_short_name(f.out_color_type));
        s.append(")");
    } else {
        s.append("color: ");
        s.append(color_type_short_name(f.orig_color_type));
        s.append("->");
        s.append(color_type_short_name(f.out_color_type));
    }
    assert(s@ =~= color_part(*f));
    s
}

fn describe_settings(t: &TrialConfig, zi: u8) -> (s: String)
    ensures
        s@ == settings_part(*t, zi),
{
    let mut s: String = "-zc".to_string();
    append_signed(&mut s, t.zc);
    if zi != 2 {
        s.append(" -zm");
        append_signed(&mut s, t.zm);
        s.append(" -zs");
        append_signed(&mut s, t.zs);
    }
    s.append(" -f");
    append_decimal(&mut s, t.f as u128);
    assert(s@ =~= settings_part(*t, zi));
    s
}

/// What is said about a finished file.
pub fn format_reduction_info(state: &FileState, zi: u8) -> (s: String)
    ensures
        s@ == info_text(*state, zi),
{
    let mut parts: Vec<String> = Vec::new();
    if state.out_bit_depth < state.orig_bit_depth || state.out_color_type != state.orig_color_type {
        let mut part = describe_depth(state);
        part.append(", ");
        part.append(describe_color(state).as_str());
        parts.push(part);
    }
    if let Some(best) = &state.best_config {
        parts.push(describe_settings(best, zi));
    }
    proof {
        let is_reduced = state.out_bit_depth < state.orig_bit_depth || state.out_color_type != state.orig_color_type;
        assert(texts(parts@) =~= (if is_reduced {
            seq![depth_part(*state) + ", "@ + color_part(*state)]
        } else {
            Seq::empty()
        }) + (match state.best_config {
            Some(best) => seq![settings_part(best, zi)],
            None => Seq::empty(),
        }));
    }
    if parts.len() == 0 {
        "no reduction".to_string()
    } else {
        join_strings(&parts, ", ")
    }
}

}
