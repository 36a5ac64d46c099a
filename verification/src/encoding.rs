//! What the encoder is told, and what is made of its answer.
use crate::models::TrialConfig;
use crate::text::{append_decimal, append_signed, decimal, find, lemma_find, signed_decimal, split_once};
use crate::trials::{zopfli_iterations, zc_to_zopfli_iterations};
use vstd::arithmetic::div_mod::lemma_fundamental_div_mod;
use vstd::prelude::*;
use vstd::string::StringExecFns;

verus! {

/// Settings of the encoder.
#[derive(Debug, Clone, Copy, PartialEq, Eq, Structural)]
pub struct EncoderOptions {
    pub z_implementation: u8,
    pub level: i32,
    pub strategy: i32,
    pub window_bits: i32,
    pub mem_level: i32,
    pub max_idat_size: usize,
    pub expected_idat_size: usize,
}

/// Rows that are handed to the encoder together, and where they start.
#[derive(Debug, Clone, Copy, PartialEq, Eq, Structural)]
pub struct RowBatch {
    pub offset: usize,
    pub rows: usize,
}

/// The settings of a trial.
pub open spec fn trial_settings(t: TrialConfig, zi: u8) -> EncoderOptions {
    EncoderOptions {
        z_implementation: zi,
        level: if zi == 2 { zopfli_iterations(t.zc as int) as i32 } else { t.zc },
        strategy: t.zs,
        window_bits: 15,
        mem_level: t.zm,
        max_idat_size: 32768,
        expected_idat_size: 0,
    }
}

/// The settings with which the winner is written.
pub open spec fn final_settings(best: TrialConfig, zi: u8, best_size: usize) -> EncoderOptions {
    EncoderOptions {
        z_implementation: zi,
        level: best.zc,
        strategy: best.zs,
        window_bits: 15,
        mem_level: best.zm,
        max_idat_size: 0,
        expected_idat_size: best_size,
    }
}

/// The settings of a trial.
pub fn trial_options(trial: &TrialConfig, zi: u8) -> (o: EncoderOptions)
    ensures
        o == trial_settings(*trial, zi),
        o.z_implementation == zi,
        o.level == (if zi == 2 { zopfli_iterations(trial.zc as int) } else { trial.zc as int }),
        o.strategy == trial.zs,
        o.window_bits == 15,
        o.mem_level == trial.zm,
        o.max_idat_size == 32768,
        o.expected_idat_size == 0,
{
    EncoderOptions {
        z_implementation: zi,
        level: if zi == 2 { zc_to_zopfli_iterations(trial.zc) } else { trial.zc },
        strategy: trial.zs,
        window_bits: 15,
        mem_level: trial.zm,
        max_idat_size: 32768,
        expected_idat_size: 0,
    }
}

/// The settings with which the winner is written: all pixel data in one
/// chunk of the size that the trial found.
pub fn final_options(best: &TrialConfig, zi: u8, best_size: usize) -> (o: EncoderOptions)
    ensures
        o == final_settings(*best, zi, best_size),
        o.z_implementation == zi,
        o.level == best.zc,
        o.strategy == best.zs,
        o.window_bits == 15,
        o.mem_level == best.zm,
        o.max_idat_size == 0,
        o.expected_idat_size == best_size,
{
    EncoderOptions {
        z_implementation: zi,
        level: best.zc,
        strategy: best.zs,
        window_bits: 15,
        mem_level: best.zm,
        max_idat_size: 0,
        expected_idat_size: best_size,
    }
}

/// The settings of a trial one after the other.
pub open spec fn settings_text(t: TrialConfig) -> Seq<char> {
    signed_decimal(t.zc as int) + signed_decimal(t.zm as int) + signed_decimal(t.zs as int) + decimal(t.f as nat)
}

/// The settings of a Zopfli trial one after the other.
pub open spec fn zopfli_settings_text(t: TrialConfig) -> Seq<char> {
    signed_decimal(t.zc as int) + decimal(t.f as nat)
}

/// The line with the options of the command line above it, if there are any.
pub open spec fn below_options(options: Seq<char>, line: Seq<char>) -> Seq<char> {
    if options.len() == 0 {
        line
    } else {
        options + "\n"@ + line
    }
}

/// The settings of the winning trial, or `-o0` at the level that tries
/// nothing.
pub open spec fn winning_text(best: TrialConfig, opt_level: u8) -> Seq<char> {
    if opt_level == 0 {
        "-o0"@
    } else {
        settings_text(best)
    }
}

/// The text that a file carries: the options of the command line, if there
/// are any, and below them the settings of the winning trial or `-o0`.
pub open spec fn final_text(best: TrialConfig, opt_level: u8, options: Seq<char>) -> Seq<char> {
    below_options(options, winning_text(best, opt_level))
}

/// The text that the outcome of a trial carries. There is none for an
/// unknown encoder.
pub open spec fn trial_text(t: TrialConfig, opt_level: u8, options: Seq<char>, zi: u8) -> Seq<char> {
    if opt_level == 0 || zi == 1 {
        final_text(t, opt_level, options)
    } else if zi == 2 {
        below_options(options, zopfli_settings_text(t))
    } else {
        Seq::empty()
    }
}

fn append_settings(s: &mut String, t: &TrialConfig)
    ensures
        final(s)@ == old(s)@ + settings_text(*t),
{
    append_signed(s, t.zc);
    append_signed(s, t.zm);
    append_signed(s, t.zs);
    append_decimal(s, t.f as u128);
    assert(s@ =~= old(s)@ + settings_text(*t));
}

/// The text that a file carries.
pub fn text_for_file(best: &TrialConfig, opt_level: u8, cmd_opts: &str) -> (s: String)
    ensures
        s@ == final_text(*best, opt_level, cmd_opts@),
{
    let mut s: String = cmd_opts.to_string();
    if !cmd_opts.is_empty() {
        s.append("\n");
    }
    if opt_level == 0 {
        s.append("-o0");
    } else {
        append_settings(&mut s, best);
    }
    assert(s@ =~= final_text(*best, opt_level, cmd_opts@));
    s
}

/// The text that the outcome of a trial carries.
pub fn text_for_trial(trial: &TrialConfig, opt_level: u8, cmd_opts: &str, zi: u8) -> (s: String)
    ensures
        s@ == trial_text(*trial, opt_level, cmd_opts@, zi),
{
    if opt_level == 0 || zi == 1 {
        return text_for_file(trial, opt_level, cmd_opts);
    }
    let mut s: String = String::new();
    if zi == 2 {
        s.append(cmd_opts);
        if !cmd_opts.is_empty() {
            s.append("\n");
        }
        append_signed(&mut s, trial.zc);
        append_decimal(&mut s, trial.f as u128);
    }
    assert(s@ =~= trial_text(*trial, opt_level, cmd_opts@, zi));
    s
}

/// The text has two lines when options were given: the options, and below
/// them the settings of the winning trial or `-o0`.
pub proof fn law_text_has_options_above_settings(best: TrialConfig, opt_level: u8, options: Seq<char>)
    requires
        options.len() > 0,
        !options.contains('\n'),
    ensures
        split_once(final_text(best, opt_level, options), '\n') == Some((options, winning_text(best, opt_level))),
{
    reveal_strlit("\n");
    let text = final_text(best, opt_level, options);
    let n = options.len() as int;
    lemma_find(text, '\n');
    assert(text[n] == '\n');
    let i = find(text, '\n');
    if i < n {
        assert(options[i] == text[i]);
    }
    assert(text.take(n) =~= options);
    assert(text.skip(n + 1) =~= winning_text(best, opt_level));
}

/// The bytes of a row when `size` bytes hold `rows` rows.
pub open spec fn bytes_per_row(size: int, rows: int) -> int {
    if rows > 0 { size / rows } else { 0 }
}

/// Rows in batches of 250, and a last batch with those that are left.
pub open spec fn batches_from(rows: int, row_bytes: int, done: int) -> Seq<RowBatch>
    decreases rows - done,
{
    if done >= rows {
        Seq::empty()
    } else {
        let n = if rows - done < 250 { rows - done } else { 250 };
        seq![RowBatch { offset: (done * row_bytes) as usize, rows: n as usize }] + batches_from(
            rows,
            row_bytes,
            done + n,
        )
    }
}

/// The batches in which an image of `height` rows in `size` bytes is
/// encoded.
pub fn row_batches(size: usize, height: u32) -> (batches: Vec<RowBatch>)
    ensures
        batches@ == batches_from(height as int, bytes_per_row(size as int, height as int), 0),
{
    let rows: u64 = height as u64;
    let row_bytes: u64 = if rows > 0 { size as u64 / rows } else { 0 };
    let mut batches: Vec<RowBatch> = Vec::new();
    let mut done: u64 = 0;
    let ghost all = batches_from(rows as int, row_bytes as int, 0);
    assert(batches@ + all =~= all);
    while done < rows
        invariant
            done <= rows,
            rows == height,
            row_bytes == bytes_per_row(size as int, height as int),
            all == batches_from(rows as int, row_bytes as int, 0),
            all == batches@ + batches_from(rows as int, row_bytes as int, done as int),
        decreases rows - done,
    {
        let n: u64 = if rows - done < 250 { rows - done } else { 250 };
        proof {
            lemma_fundamental_div_mod(size as int, rows as int);
            assert(done * row_bytes <= rows * row_bytes) by (nonlinear_arith)
                requires
                    done <= rows,
                    row_bytes >= 0,
            ;
        }
        let batch = RowBatch { offset: (done * row_bytes) as usize, rows: n as usize };
        proof {
            let rest = batches_from(rows as int, row_bytes as int, done + n);
            assert(batches@ + (seq![batch] + rest) =~= batches@.push(batch) + rest);
        }
        batches.push(batch);
        done = done + n;
    }
    assert(all =~= batches@);
    batches
}

/// The rows in all batches.
pub open spec fn rows_in(batches: Seq<RowBatch>) -> int
    decreases batches.len(),
{
    if batches.len() == 0 {
        0
    } else {
        batches[0].rows + rows_in(batches.skip(1))
    }
}

proof fn lemma_batches(size: int, rows: int, done: int)
    requires
        0 <= size <= usize::MAX,
        0 <= done <= rows <= u32::MAX,
    ensures
        ({
            let batches = batches_from(rows, bytes_per_row(size, rows), done);
            &&& rows_in(batches) == rows - done
            &&& forall|i: int|
                0 <= i < batches.len() ==> {
                    let b = #[trigger] batches[i];
                    &&& 1 <= b.rows <= 250
                    &&& b.offset == (done + 250 * i) * bytes_per_row(size, rows)
                    &&& b.offset + b.rows * bytes_per_row(size, rows) <= size
                }
        }),
    decreases rows - done,
{
    let row_bytes = bytes_per_row(size, rows);
    let batches = batches_from(rows, row_bytes, done);
    if done < rows {
        let n = if rows - done < 250 { rows - done } else { 250 };
        let rest = batches_from(rows, row_bytes, done + n);
        lemma_batches(size, rows, done + n);
        lemma_fundamental_div_mod(size, rows);
        assert(0 <= done * row_bytes && done * row_bytes + n * row_bytes <= rows * row_bytes) by (nonlinear_arith)
            requires
                0 <= done,
                0 <= n,
                done + n <= rows,
                row_bytes >= 0,
        ;
        assert(batches.skip(1) =~= rest);
        assert forall|i: int| 0 <= i < batches.len() implies {
            let b = #[trigger] batches[i];
            &&& 1 <= b.rows <= 250
            &&& b.offset == (done + 250 * i) * row_bytes
            &&& b.offset + b.rows * row_bytes <= size
        } by {
            if i > 0 {
                assert(batches[i] == rest[i - 1]);
                assert(n == 250);
            }
        }
    }
}

/// The batches hold every row once and in order, and none of them reaches
/// beyond the pixels.
pub proof fn law_batches_cover_the_image(size: usize, height: u32)
    ensures
        ({
            let row_bytes = bytes_per_row(size as int, height as int);
            let batches = batches_from(height as int, row_bytes, 0);
            &&& rows_in(batches) == height
            &&& forall|i: int|
                0 <= i < batches.len() ==> {
                    let b = #[trigger] batches[i];
                    &&& 1 <= b.rows <= 250
                    &&& b.offset == 250 * i * row_bytes
                    &&& b.offset + b.rows * row_bytes <= size
                }
        }),
{
    lemma_batches(size as int, height as int, 0);
}

/// The size that counts for a trial. One that failed is endlessly large.
pub open spec fn outcome_size(opened: bool, idat_size: usize) -> usize {
    if opened && idat_size > 0 { idat_size } else { usize::MAX }
}

/// The file that a trial has written is needed later on.
pub open spec fn is_file_needed(opened: bool, idat_size: usize, zi: u8) -> bool {
    opened && idat_size > 0 && zi == 2
}

/// What comes of a trial: the size of the pixel data, and the whole file if
/// it is needed later on. A trial that failed counts as endlessly large.
pub fn trial_outcome(opened: bool, idat_size: usize, zi: u8, written: Vec<u8>) -> (r: (usize, Option<Vec<u8>>))
    ensures
        r.0 == outcome_size(opened, idat_size),
        r.1 == (if is_file_needed(opened, idat_size, zi) { Some(written) } else { None }),
        r.0 == (if opened && idat_size > 0 { idat_size } else { usize::MAX }),
        r.1 == (if opened && idat_size > 0 && zi == 2 { Some(written) } else { None }),
{
    if opened && idat_size > 0 {
        (idat_size, if zi == 2 { Some(written) } else { None })
    } else {
        (usize::MAX, None)
    }
}

}
