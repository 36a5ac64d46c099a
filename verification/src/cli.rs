//! Command-line options.
use crate::models::CliArgs;
use crate::text::{
    all_digits, begins_with, chars_of, digits_from, find_from, has_prefix, is_text, join_strings, joined, lemma_find,
    lemma_parse_unsigned, parse_unsigned, piece, read_unsigned, text_of, texts,
};
use crate::utils::{byte_numbers, list_numbers, parse_ranges_i32, parse_ranges_u8};
use vstd::prelude::*;
use vstd::string::StrSliceExecFns;

verus! {

/// What command-line arguments amount to.
pub struct CliView {
    pub files: Seq<Seq<char>>,
    pub external_input: Option<Seq<char>>,
    pub opt_level: u8,
    pub mt: usize,
    pub zi: u8,
    pub zc: Option<Seq<i32>>,
    pub zm: Option<Seq<i32>>,
    pub zs: Option<Seq<i32>>,
    pub f: Option<Seq<u8>>,
    pub backup: bool,
    pub simulate: bool,
    pub quiet: bool,
    pub nc: bool,
    pub nb: bool,
    pub np: bool,
    pub nx: bool,
    pub nz: bool,
    pub out_file: Option<Seq<char>>,
    pub out_dir: Option<Seq<char>>,
    pub recursive: bool,
    pub max_depth: Option<usize>,
    pub show_help: bool,
    pub force_trials: bool,
    pub force_reenc: bool,
    pub cmd_options: Seq<char>,
    pub usage_error: Option<Seq<char>>,
}

/// The elements of a list, if there is one.
pub open spec fn list_of<T>(v: Option<Vec<T>>) -> Option<Seq<T>> {
    match v {
        Some(l) => Some(l@),
        None => None,
    }
}

impl View for CliArgs {
    type V = CliView;

    open spec fn view(&self) -> CliView {
        CliView {
            files: texts(self.files@),
            external_input: text_of(self.external_input),
            opt_level: self.opt_level,
            mt: self.mt,
            zi: self.zi,
            zc: list_of(self.zc),
            zm: list_of(self.zm),
            zs: list_of(self.zs),
            f: list_of(self.f),
            backup: self.backup,
            simulate: self.simulate,
            quiet: self.quiet,
            nc: self.nc,
            nb: self.nb,
            np: self.np,
            nx: self.nx,
            nz: self.nz,
            out_file: text_of(self.out_file),
            out_dir: text_of(self.out_dir),
            recursive: self.recursive,
            max_depth: self.max_depth,
            show_help: self.show_help,
            force_trials: self.force_trials,
            force_reenc: self.force_reenc,
            cmd_options: self.cmd_options@,
            usage_error: text_of(self.usage_error),
        }
    }
}

/// The arguments before any option is read.
pub open spec fn default_args() -> CliView {
    CliView {
        files: Seq::empty(),
        external_input: None,
        opt_level: 2,
        mt: 0,
        zi: 1,
        zc: None,
        zm: None,
        zs: None,
        f: None,
        backup: false,
        simulate: false,
        quiet: false,
        nc: false,
        nb: false,
        np: false,
        nx: false,
        nz: false,
        out_file: None,
        out_dir: None,
        recursive: false,
        max_depth: None,
        show_help: false,
        force_trials: false,
        force_reenc: false,
        cmd_options: Seq::empty(),
        usage_error: None,
    }
}

/// The options. `LevelText` and its like have their value in the same
/// argument, `Level` and its like in the next one.
#[derive(Debug, Clone, Copy, PartialEq, Eq, Structural)]
pub enum OptionKind {
    Help,
    External,
    OutFile,
    OutDir,
    Recurse,
    RecurseText,
    ForceTrials,
    ForceWrite,
    LevelText,
    ThreadsText,
    Implementation,
    Compression,
    Memory,
    Strategy,
    Filter,
    Level,
    Threads,
    Backup,
    Simulate,
    Quiet,
    NoColor,
    NoDepth,
    NoPalette,
    NoReduction,
    NoRecoding,
    FilesFollow,
    Unknown,
    File,
}

/// `arg` is `name` with digits behind it.
pub open spec fn is_numbered(arg: Seq<char>, name: Seq<char>) -> bool {
    has_prefix(arg, name) && arg.len() > name.len() && all_digits(arg.skip(name.len() as int))
}

/// Which option an argument is. Where several descriptions fit, the first
/// one counts.
pub open spec fn option_kind(arg: Seq<char>) -> OptionKind {
    if arg == "-h"@ || arg == "--help"@ {
        OptionKind::Help
    } else if arg == "-e"@ {
        OptionKind::External
    } else if arg == "-out"@ {
        OptionKind::OutFile
    } else if arg == "-dir"@ {
        OptionKind::OutDir
    } else if arg == "-R"@ {
        OptionKind::Recurse
    } else if is_numbered(arg, "-R"@) {
        OptionKind::RecurseText
    } else if arg == "-ft"@ {
        OptionKind::ForceTrials
    } else if arg == "-force"@ {
        OptionKind::ForceWrite
    } else if is_numbered(arg, "-o"@) {
        OptionKind::LevelText
    } else if is_numbered(arg, "-mt"@) {
        OptionKind::ThreadsText
    } else if has_prefix(arg, "-zi"@) {
        OptionKind::Implementation
    } else if has_prefix(arg, "-zc"@) {
        OptionKind::Compression
    } else if has_prefix(arg, "-zm"@) {
        OptionKind::Memory
    } else if has_prefix(arg, "-zs"@) {
        OptionKind::Strategy
    } else if has_prefix(arg, "-f"@) {
        OptionKind::Filter
    } else if arg == "-o"@ {
        OptionKind::Level
    } else if arg == "-mt"@ {
        OptionKind::Threads
    } else if arg == "-backup"@ || arg == "-keep"@ {
        OptionKind::Backup
    } else if arg == "-simulate"@ {
        OptionKind::Simulate
    } else if arg == "-quiet"@ || arg == "-silent"@ {
        OptionKind::Quiet
    } else if arg == "-nc"@ {
        OptionKind::NoColor
    } else if arg == "-nb"@ {
        OptionKind::NoDepth
    } else if arg == "-np"@ {
        OptionKind::NoPalette
    } else if arg == "-nx"@ {
        OptionKind::NoReduction
    } else if arg == "-nz"@ {
        OptionKind::NoRecoding
    } else if arg == "--"@ {
        OptionKind::FilesFollow
    } else if has_prefix(arg, "-"@) {
        OptionKind::Unknown
    } else {
        OptionKind::File
    }
}

fn numbered(s: &Vec<char>, name: &str) -> (r: bool)
    ensures
        r == is_numbered(s@, name@),
{
    let n: usize = name.unicode_len();
    begins_with(s, name) && s.len() > n && digits_from(s, n)
}

fn classify(s: &Vec<char>) -> (k: OptionKind)
    ensures
        k == option_kind(s@),
{
    if is_text(s, "-h") || is_text(s, "--help") {
        OptionKind::Help
    } else if is_text(s, "-e") {
        OptionKind::External
    } else if is_text(s, "-out") {
        OptionKind::OutFile
    } else if is_text(s, "-dir") {
        OptionKind::OutDir
    } else if is_text(s, "-R") {
        OptionKind::Recurse
    } else if numbered(s, "-R") {
        OptionKind::RecurseText
    } else if is_text(s, "-ft") {
        OptionKind::ForceTrials
    } else if is_text(s, "-force") {
        OptionKind::ForceWrite
    } else if numbered(s, "-o") {
        OptionKind::LevelText
    } else if numbered(s, "-mt") {
        OptionKind::ThreadsText
    } else if begins_with(s, "-zi") {
        OptionKind::Implementation
    } else if begins_with(s, "-zc") {
        OptionKind::Compression
    } else if begins_with(s, "-zm") {
        OptionKind::Memory
    } else if begins_with(s, "-zs") {
        OptionKind::Strategy
    } else if begins_with(s, "-f") {
        OptionKind::Filter
    } else {
        classify_exact(s)
    }
}

fn classify_exact(s: &Vec<char>) -> (k: OptionKind)
    requires
        !(s@ == "-h"@ || s@ == "--help"@ || s@ == "-e"@ || s@ == "-out"@ || s@ == "-dir"@ || s@ == "-R"@),
        !is_numbered(s@, "-R"@),
        !(s@ == "-ft"@ || s@ == "-force"@),
        !is_numbered(s@, "-o"@),
        !is_numbered(s@, "-mt"@),
        !has_prefix(s@, "-zi"@),
        !has_prefix(s@, "-zc"@),
        !has_prefix(s@, "-zm"@),
        !has_prefix(s@, "-zs"@),
        !has_prefix(s@, "-f"@),
    ensures
        k == option_kind(s@),
{
    if is_text(s, "-o") {
        OptionKind::Level
    } else if is_text(s, "-mt") {
        OptionKind::Threads
    } else if is_text(s, "-backup") || is_text(s, "-keep") {
        OptionKind::Backup
    } else if is_text(s, "-simulate") {
        OptionKind::Simulate
    } else if is_text(s, "-quiet") || is_text(s, "-silent") {
        OptionKind::Quiet
    } else if is_text(s, "-nc") {
        OptionKind::NoColor
    } else if is_text(s, "-nb") {
        OptionKind::NoDepth
    } else if is_text(s, "-np") {
        OptionKind::NoPalette
    } else if is_text(s, "-nx") {
        OptionKind::NoReduction
    } else if is_text(s, "-nz") {
        OptionKind::NoRecoding
    } else if is_text(s, "--") {
        OptionKind::FilesFollow
    } else if begins_with(s, "-") {
        OptionKind::Unknown
    } else {
        OptionKind::File
    }
}

/// What one argument does.
pub enum Step {
    /// Reading goes on `used` arguments further.
    Next { cli: CliView, tokens: Seq<Seq<char>>, used: nat },
    /// All further arguments are files.
    FilesFollow { cli: CliView, tokens: Seq<Seq<char>> },
    /// Reading ends with a request for help.
    Help(CliView),
    /// The arguments are refused for a reason.
    Refused(Seq<char>),
}

/// The value of an option whose name takes `n` characters: what stands
/// behind the name, or else the next argument.
pub open spec fn option_value(arg: Seq<char>, n: int, next: Option<Seq<char>>) -> Option<Seq<char>> {
    if arg.len() > n { Some(arg.skip(n)) } else { next }
}

/// How many arguments an option and its value take.
pub open spec fn option_used(arg: Seq<char>, n: int) -> nat {
    if arg.len() > n { 1 } else { 2 }
}

/// The tokens with an option, and with its value where that is an argument
/// of its own.
pub open spec fn option_tokens(tokens: Seq<Seq<char>>, arg: Seq<char>, n: int, next: Option<Seq<char>>) -> Seq<
    Seq<char>,
> {
    if arg.len() > n || next is None {
        tokens.push(arg)
    } else {
        tokens.push(arg).push(next->0)
    }
}

/// The optimization level that a text stands for: 2 if it is no number, and
/// 7 at most.
pub open spec fn level_of(v: Seq<char>) -> u8 {
    match parse_unsigned(v, 255) {
        Some(n) => if n <= 7 { n as u8 } else { 7 },
        None => 2,
    }
}

/// The number of threads that a text stands for, 0 if it is no number.
pub open spec fn threads_of(v: Seq<char>) -> usize {
    match parse_unsigned(v, usize::MAX as int) {
        Some(n) => n as usize,
        None => 0,
    }
}

pub open spec fn depth_of(v: Seq<char>) -> Option<usize> {
    match parse_unsigned(v, usize::MAX as int) {
        Some(n) => Some(n as usize),
        None => None,
    }
}

/// The list with `more` behind it.
pub open spec fn extended<T>(list: Option<Seq<T>>, more: Seq<T>) -> Option<Seq<T>> {
    match list {
        Some(l) => Some(l + more),
        None => Some(more),
    }
}

pub open spec fn zi_range_message() -> Seq<char> {
    "Error: Options like -zi1,2 or -zi1-2 are not allowed. Select either -zi1 or -zi2."@
}

pub open spec fn zi_value_message() -> Seq<char> {
    "Error: Invalid value for -zi. Supported values are 1 (zlib) or 2 (Zöpfli)."@
}

pub open spec fn external_message() -> Seq<char> {
    "Error: Option -e requires an input file argument."@
}

/// The encoder that a text stands for, or the message with which it is
/// refused.
pub open spec fn implementation_of(v: Seq<char>) -> Result<u8, Seq<char>> {
    if v.contains(',') || v.contains('-') {
        Err(zi_range_message())
    } else if parse_unsigned(v, 255) == Some(1int) {
        Ok(1)
    } else if parse_unsigned(v, 255) == Some(2int) {
        Ok(2)
    } else {
        Err(zi_value_message())
    }
}

/// What option `-zi` does with its value.
pub open spec fn implementation_step(
    arg: Seq<char>,
    next: Option<Seq<char>>,
    cli: CliView,
    tokens: Seq<Seq<char>>,
) -> Step {
    let after = option_tokens(tokens, arg, 3, next);
    let used = option_used(arg, 3);
    match option_value(arg, 3, next) {
        Some(v) => match implementation_of(v) {
            Ok(zi) => Step::Next { cli: CliView { zi, ..cli }, tokens: after, used },
            Err(message) => Step::Refused(message),
        },
        None => Step::Next { cli, tokens: after, used },
    }
}

/// The arguments with the values of a list option taken in.
pub open spec fn list_args(kind: OptionKind, value: Option<Seq<char>>, cli: CliView) -> CliView {
    match value {
        Some(v) => match kind {
            OptionKind::Compression => CliView { zc: extended(cli.zc, list_numbers(v)), ..cli },
            OptionKind::Memory => CliView { zm: extended(cli.zm, list_numbers(v)), ..cli },
            OptionKind::Strategy => CliView { zs: extended(cli.zs, list_numbers(v)), ..cli },
            _ => CliView { f: extended(cli.f, byte_numbers(list_numbers(v))), ..cli },
        },
        None => cli,
    }
}

/// The arguments after an option without a value.
pub open spec fn flag_args(kind: OptionKind, cli: CliView) -> CliView {
    match kind {
        OptionKind::ForceTrials => CliView { force_trials: true, ..cli },
        OptionKind::ForceWrite => CliView { force_reenc: true, ..cli },
        OptionKind::Backup => CliView { backup: true, ..cli },
        OptionKind::Simulate => CliView { simulate: true, ..cli },
        OptionKind::Quiet => CliView { quiet: true, ..cli },
        OptionKind::NoColor => CliView { nc: true, ..cli },
        OptionKind::NoDepth => CliView { nb: true, ..cli },
        OptionKind::NoPalette => CliView { np: true, ..cli },
        OptionKind::NoReduction => CliView { nx: true, ..cli },
        OptionKind::NoRecoding => CliView { nz: true, ..cli },
        _ => cli,
    }
}

/// What option `arg` of the given kind, followed by `next`, does to the
/// arguments read so far and to the list of option tokens.
pub open spec fn kind_step(
    kind: OptionKind,
    arg: Seq<char>,
    next: Option<Seq<char>>,
    cli: CliView,
    tokens: Seq<Seq<char>>,
) -> Step {
    let noted = tokens.push(arg);
    match kind {
        OptionKind::Help => Step::Help(CliView { show_help: true, ..cli }),
        OptionKind::External => match next {
            Some(v) => Step::Next { cli: CliView { external_input: Some(v), ..cli }, tokens: noted, used: 2 },
            None => Step::Help(CliView { show_help: true, usage_error: Some(external_message()), ..cli }),
        },
        OptionKind::OutFile => match next {
            Some(v) => Step::Next { cli: CliView { out_file: Some(v), ..cli }, tokens: noted, used: 2 },
            None => Step::Next { cli, tokens: noted, used: 1 },
        },
        OptionKind::OutDir => match next {
            Some(v) => Step::Next { cli: CliView { out_dir: Some(v), ..cli }, tokens: noted, used: 2 },
            None => Step::Next { cli, tokens: noted, used: 1 },
        },
        OptionKind::Recurse => if next is Some && all_digits(next->0) {
            Step::Next {
                cli: CliView { recursive: true, max_depth: depth_of(next->0), ..cli },
                tokens: noted.push(next->0),
                used: 2,
            }
        } else {
            Step::Next { cli: CliView { recursive: true, ..cli }, tokens: noted, used: 1 }
        },
        OptionKind::RecurseText => Step::Next {
            cli: CliView { recursive: true, max_depth: depth_of(arg.skip(2)), ..cli },
            tokens: noted,
            used: 1,
        },
        OptionKind::LevelText => Step::Next {
            cli: CliView { opt_level: level_of(arg.skip(2)), ..cli },
            tokens: noted,
            used: 1,
        },
        OptionKind::ThreadsText => Step::Next {
            cli: CliView { mt: threads_of(arg.skip(3)), ..cli },
            tokens: noted,
            used: 1,
        },
        OptionKind::Implementation => implementation_step(arg, next, cli, tokens),
        OptionKind::Compression | OptionKind::Memory | OptionKind::Strategy => Step::Next {
            cli: list_args(kind, option_value(arg, 3, next), cli),
            tokens: option_tokens(tokens, arg, 3, next),
            used: option_used(arg, 3),
        },
        OptionKind::Filter => Step::Next {
            cli: list_args(kind, option_value(arg, 2, next), cli),
            tokens: option_tokens(tokens, arg, 2, next),
            used: option_used(arg, 2),
        },
        OptionKind::Level => match next {
            Some(v) => Step::Next {
                cli: CliView { opt_level: level_of(v), ..cli },
                tokens: noted.push(v),
                used: 2,
            },
            None => Step::Next { cli, tokens: noted, used: 1 },
        },
        OptionKind::Threads => match next {
            Some(v) => Step::Next { cli: CliView { mt: threads_of(v), ..cli }, tokens: noted.push(v), used: 2 },
            None => Step::Next { cli, tokens: noted, used: 1 },
        },
        OptionKind::FilesFollow => Step::FilesFollow { cli, tokens: noted },
        OptionKind::File => Step::Next { cli: CliView { files: cli.files.push(arg), ..cli }, tokens, used: 1 },
        _ => Step::Next { cli: flag_args(kind, cli), tokens: noted, used: 1 },
    }
}

/// What argument `arg`, followed by `next`, does to the arguments read so
/// far and to the list of option tokens.
#[verifier::opaque]
pub open spec fn option_step(
    arg: Seq<char>,
    next: Option<Seq<char>>,
    cli: CliView,
    tokens: Seq<Seq<char>>,
) -> Step {
    kind_step(option_kind(arg), arg, next, cli, tokens)
}

/// The numbers of `s` in ascending order, with `v` among them.
pub open spec fn with_number(s: Seq<int>, v: int) -> Seq<int>
    decreases s.len(),
{
    if s.len() > 0 && s.last() > v {
        with_number(s.drop_last(), v).push(s.last())
    } else if s.len() > 0 && s.last() == v {
        s
    } else {
        s.push(v)
    }
}

/// The numbers of `s` in ascending order, each once.
pub open spec fn ascending(s: Seq<int>) -> Seq<int>
    decreases s.len(),
{
    if s.len() == 0 {
        s
    } else {
        with_number(ascending(s.drop_last()), s.last())
    }
}

pub open spec fn ints_i32(s: Seq<i32>) -> Seq<int> {
    s.map_values(|v: i32| v as int)
}

pub open spec fn ints_u8(s: Seq<u8>) -> Seq<int> {
    s.map_values(|v: u8| v as int)
}

pub open spec fn ascending_i32(list: Option<Seq<i32>>) -> Option<Seq<i32>> {
    match list {
        Some(l) => Some(ascending(ints_i32(l)).map_values(|v: int| v as i32)),
        None => None,
    }
}

pub open spec fn ascending_u8(list: Option<Seq<u8>>) -> Option<Seq<u8>> {
    match list {
        Some(l) => Some(ascending(ints_u8(l)).map_values(|v: int| v as u8)),
        None => None,
    }
}

/// Three quarters of the available processors, at least one.
pub open spec fn default_threads(available: usize) -> usize {
    if (available * 3) / 4 > 1 { ((available * 3) / 4) as usize } else { 1 }
}

/// The arguments with their lists in order.
pub open spec fn ordered_args(cli: CliView) -> CliView {
    CliView {
        zc: ascending_i32(cli.zc),
        zm: ascending_i32(cli.zm),
        zs: ascending_i32(cli.zs),
        f: ascending_u8(cli.f),
        ..cli
    }
}

/// The arguments when all options have been read: level 0 neither reduces
/// nor recodes, lists are in order, and there is at least one thread.
pub open spec fn finished_args(cli: CliView, tokens: Seq<Seq<char>>, available: usize) -> CliView {
    CliView {
        nx: cli.nx || cli.opt_level == 0,
        nz: cli.nz || cli.opt_level == 0,
        cmd_options: joined(tokens, " "@),
        mt: if cli.mt == 0 { default_threads(available) } else { cli.mt },
        ..ordered_args(cli)
    }
}

/// What comes of reading the arguments from number `i` on.
pub open spec fn args_from(
    args: Seq<Seq<char>>,
    i: int,
    cli: CliView,
    tokens: Seq<Seq<char>>,
    available: usize,
) -> Result<CliView, Seq<char>>
    decreases args.len() + 1 - i,
{
    if i >= args.len() {
        Ok(finished_args(cli, tokens, available))
    } else {
        let next = if i + 1 < args.len() { Some(args[i + 1]) } else { None };
        match option_step(args[i], next, cli, tokens) {
            Step::Next { cli: c, tokens: t, used } => if used == 1 {
                args_from(args, i + 1, c, t, available)
            } else {
                args_from(args, i + 2, c, t, available)
            },
            Step::FilesFollow { cli: c, tokens: t } => Ok(
                finished_args(CliView { files: c.files + args.skip(i + 1), ..c }, t, available),
            ),
            Step::Help(c) => Ok(c),
            Step::Refused(message) => Err(message),
        }
    }
}

/// What the command-line arguments amount to on a machine with `available`
/// processors, or the message with which they are refused.
pub open spec fn read_args(args: Seq<Seq<char>>, available: usize) -> Result<CliView, Seq<char>> {
    args_from(args, 0, default_args(), Seq::empty(), available)
}

/// How reading goes on after an argument.
enum Taken {
    One,
    Two,
    FilesFollow,
    Help,
    Refused(&'static str),
}

spec fn next_text(next: Option<&String>) -> Option<Seq<char>> {
    match next {
        Some(s) => Some(s@),
        None => None,
    }
}

/// The outcome of handling an argument is what `step` says.
spec fn is_step(t: Taken, cli: CliView, tokens: Seq<Seq<char>>, step: Step) -> bool {
    match step {
        Step::Next { cli: c, tokens: k, used } => {
            &&& cli == c
            &&& tokens == k
            &&& used == 1 ==> t is One
            &&& used == 2 ==> t is Two
            &&& used == 1 || used == 2
        },
        Step::FilesFollow { cli: c, tokens: k } => t is FilesFollow && cli == c && tokens == k,
        Step::Help(c) => t is Help && cli == c,
        Step::Refused(message) => t matches Taken::Refused(text) && text@ == message,
    }
}

fn push_token(tokens: &mut Vec<String>, arg: &String)
    ensures
        texts(final(tokens)@) == texts(old(tokens)@).push(arg@),
{
    tokens.push(arg.clone());
    assert(texts(tokens@) =~= texts(old(tokens)@).push(arg@));
}

fn read_level(v: &Vec<char>) -> (n: u8)
    ensures
        n == level_of(v@),
{
    match read_unsigned(v, 255) {
        Some(n) => if n <= 7 { n as u8 } else { 7 },
        None => 2,
    }
}

fn read_threads(v: &Vec<char>) -> (n: usize)
    ensures
        n == threads_of(v@),
{
    match read_unsigned(v, usize::MAX as u64) {
        Some(n) => n as usize,
        None => 0,
    }
}

fn read_depth(v: &Vec<char>) -> (n: Option<usize>)
    ensures
        n == depth_of(v@),
{
    match read_unsigned(v, usize::MAX as u64) {
        Some(n) => Some(n as usize),
        None => None,
    }
}

#[verifier::rlimit(60)]
fn set_flag(kind: OptionKind, cli: &mut CliArgs)
    ensures
        final(cli)@ == flag_args(kind, old(cli)@),
{
    match kind {
        OptionKind::ForceTrials => {
            cli.force_trials = true;
        },
        OptionKind::ForceWrite => {
            cli.force_reenc = true;
        },
        OptionKind::Backup => {
            cli.backup = true;
        },
        OptionKind::Simulate => {
            cli.simulate = true;
        },
        OptionKind::Quiet => {
            cli.quiet = true;
        },
        OptionKind::NoColor => {
            cli.nc = true;
        },
        OptionKind::NoDepth => {
            cli.nb = true;
        },
        OptionKind::NoPalette => {
            cli.np = true;
        },
        OptionKind::NoReduction => {
            cli.nx = true;
        },
        OptionKind::NoRecoding => {
            cli.nz = true;
        },
        _ => {},
    }
}

/// The characters behind the first `n`.
fn rest_of(chars: &Vec<char>, n: usize) -> (out: Vec<char>)
    requires
        n <= chars@.len(),
    ensures
        out@ == chars@.skip(n as int),
{
    let len: usize = chars.len();
    let out = piece(chars, n, len);
    assert(out@ =~= chars@.skip(n as int));
    out
}

/// Handles the options whose value is a name in the next argument.
#[verifier::rlimit(60)]
fn take_name(
    kind: OptionKind,
    arg: &String,
    next: Option<&String>,
    cli: &mut CliArgs,
    tokens: &mut Vec<String>,
) -> (t: Taken)
    requires
        kind == OptionKind::External || kind == OptionKind::OutFile || kind == OptionKind::OutDir,
    ensures
        is_step(
            t,
            final(cli)@,
            texts(final(tokens)@),
            kind_step(kind, arg@, next_text(next), old(cli)@, texts(old(tokens)@)),
        ),
{
    push_token(tokens, arg);
    match next {
        Some(v) => {
            match kind {
                OptionKind::External => {
                    cli.external_input = Some(v.clone());
                },
                OptionKind::OutFile => {
                    cli.out_file = Some(v.clone());
                },
                _ => {
                    cli.out_dir = Some(v.clone());
                },
            }
            Taken::Two
        },
        None => match kind {
            OptionKind::External => {
                cli.show_help = true;
                cli.usage_error = Some("Error: Option -e requires an input file argument.".to_string());
                Taken::Help
            },
            _ => Taken::One,
        },
    }
}

/// Handles the options whose value is a number in the next argument.
#[verifier::rlimit(60)]
fn take_number(
    kind: OptionKind,
    arg: &String,
    next: Option<&String>,
    cli: &mut CliArgs,
    tokens: &mut Vec<String>,
) -> (t: Taken)
    requires
        kind == OptionKind::Level || kind == OptionKind::Threads,
    ensures
        is_step(
            t,
            final(cli)@,
            texts(final(tokens)@),
            kind_step(kind, arg@, next_text(next), old(cli)@, texts(old(tokens)@)),
        ),
{
    push_token(tokens, arg);
    match next {
        Some(v) => {
            push_token(tokens, v);
            let chars = chars_of(v.as_str());
            match kind {
                OptionKind::Level => {
                    cli.opt_level = read_level(&chars);
                },
                _ => {
                    cli.mt = read_threads(&chars);
                },
            }
            Taken::Two
        },
        None => Taken::One,
    }
}

/// Handles option `-R`, whose value is optional.
#[verifier::rlimit(60)]
fn take_recurse(
    kind: OptionKind,
    arg: &String,
    next: Option<&String>,
    cli: &mut CliArgs,
    tokens: &mut Vec<String>,
) -> (t: Taken)
    requires
        kind == OptionKind::Recurse,
    ensures
        is_step(
            t,
            final(cli)@,
            texts(final(tokens)@),
            kind_step(kind, arg@, next_text(next), old(cli)@, texts(old(tokens)@)),
        ),
{
    push_token(tokens, arg);
    cli.recursive = true;
    match next {
        Some(v) => {
            let chars = chars_of(v.as_str());
            assert(chars@.skip(0) =~= v@);
            if digits_from(&chars, 0) {
                cli.max_depth = read_depth(&chars);
                push_token(tokens, v);
                Taken::Two
            } else {
                Taken::One
            }
        },
        None => Taken::One,
    }
}

/// Handles the options with digits right behind the name.
#[verifier::rlimit(60)]
fn take_text(
    kind: OptionKind,
    arg: &String,
    chars: &Vec<char>,
    next: Option<&String>,
    cli: &mut CliArgs,
    tokens: &mut Vec<String>,
) -> (t: Taken)
    requires
        chars@ == arg@,
        kind == OptionKind::RecurseText || kind == OptionKind::LevelText || kind == OptionKind::ThreadsText,
        arg@.len() >= 2,
        kind == OptionKind::ThreadsText ==> arg@.len() >= 3,
    ensures
        is_step(
            t,
            final(cli)@,
            texts(final(tokens)@),
            kind_step(kind, arg@, next_text(next), old(cli)@, texts(old(tokens)@)),
        ),
{
    push_token(tokens, arg);
    match kind {
        OptionKind::RecurseText => {
            cli.recursive = true;
            cli.max_depth = read_depth(&rest_of(chars, 2));
        },
        OptionKind::LevelText => {
            cli.opt_level = read_level(&rest_of(chars, 2));
        },
        _ => {
            cli.mt = read_threads(&rest_of(chars, 3));
        },
    }
    Taken::One
}

/// The value of an option whose name takes `n` characters.
fn take_value<'a>(
    arg: &'a String,
    chars: &Vec<char>,
    n: usize,
    next: Option<&'a String>,
    tokens: &mut Vec<String>,
) -> (r: (Option<&'a str>, bool))
    requires
        chars@ == arg@,
    ensures
        match r.0 {
            Some(v) => option_value(arg@, n as int, next_text(next)) == Some(v@),
            None => option_value(arg@, n as int, next_text(next)) is None,
        },
        r.1 <==> option_used(arg@, n as int) == 1,
        texts(final(tokens)@) == option_tokens(texts(old(tokens)@), arg@, n as int, next_text(next)),
{
    push_token(tokens, arg);
    let len: usize = chars.len();
    if len > n {
        let rest = arg.as_str().substring_char(n, len);
        assert(rest@ =~= arg@.skip(n as int));
        (Some(rest), true)
    } else {
        match next {
            Some(v) => {
                push_token(tokens, v);
                (Some(v.as_str()), false)
            },
            None => (None, false),
        }
    }
}

fn has_char(chars: &Vec<char>, c: char) -> (r: bool)
    ensures
        r == chars@.contains(c),
{
    let n: usize = find_from(chars, 0, c);
    proof {
        assert(chars@.skip(0) =~= chars@);
        lemma_find(chars@, c);
        if chars@.contains(c) {
            let k = chars@.index_of(c);
            assert(chars@[k] == c);
        }
    }
    n < chars.len()
}

fn read_implementation(v: &str) -> (r: Result<u8, &'static str>)
    ensures
        match r {
            Ok(zi) => implementation_of(v@) == Ok::<u8, Seq<char>>(zi),
            Err(text) => implementation_of(v@) == Err::<u8, Seq<char>>(text@),
        },
{
    let v = chars_of(v);
    if has_char(&v, ',') || has_char(&v, '-') {
        return Err("Error: Options like -zi1,2 or -zi1-2 are not allowed. Select either -zi1 or -zi2.");
    }
    let n: Option<u64> = read_unsigned(&v, 255);
    if n == Some(1) {
        Ok(1)
    } else if n == Some(2) {
        Ok(2)
    } else {
        Err("Error: Invalid value for -zi. Supported values are 1 (zlib) or 2 (Zöpfli).")
    }
}

#[verifier::rlimit(60)]
fn take_implementation(
    arg: &String,
    chars: &Vec<char>,
    next: Option<&String>,
    cli: &mut CliArgs,
    tokens: &mut Vec<String>,
) -> (t: Taken)
    requires
        chars@ == arg@,
    ensures
        is_step(
            t,
            final(cli)@,
            texts(final(tokens)@),
            implementation_step(arg@, next_text(next), old(cli)@, texts(old(tokens)@)),
        ),
{
    let (value, attached) = take_value(arg, chars, 3, next, tokens);
    if let Some(v) = value {
        match read_implementation(v) {
            Ok(zi) => {
                cli.zi = zi;
            },
            Err(text) => {
                return Taken::Refused(text);
            },
        }
    }
    if attached { Taken::One } else { Taken::Two }
}

fn extend_list<T: Copy>(list: &mut Option<Vec<T>>, more: Vec<T>)
    ensures
        list_of(*final(list)) == extended(list_of(*old(list)), more@),
{
    let mut out: Vec<T> = Vec::new();
    if let Some(l) = list.take() {
        out = l;
    }
    let mut i: usize = 0;
    let ghost before = out@;
    while i < more.len()
        invariant
            i <= more@.len(),
            out@ == before + more@.take(i as int),
        decreases more@.len() - i,
    {
        out.push(more[i]);
        i = i + 1;
        assert(out@ =~= before + more@.take(i as int));
    }
    assert(more@.take(i as int) =~= more@);
    *list = Some(out);
    assert(list_of(*list)->0 =~= extended(list_of(*old(list)), more@)->0);
}

#[verifier::rlimit(60)]
fn add_numbers(kind: OptionKind, v: &str, cli: &mut CliArgs)
    requires
        kind == OptionKind::Compression || kind == OptionKind::Memory || kind == OptionKind::Strategy || kind
            == OptionKind::Filter,
    ensures
        final(cli)@ == list_args(kind, Some(v@), old(cli)@),
{
    match kind {
        OptionKind::Compression => {
            extend_list(&mut cli.zc, parse_ranges_i32(v));
        },
        OptionKind::Memory => {
            extend_list(&mut cli.zm, parse_ranges_i32(v));
        },
        OptionKind::Strategy => {
            extend_list(&mut cli.zs, parse_ranges_i32(v));
        },
        _ => {
            extend_list(&mut cli.f, parse_ranges_u8(v));
        },
    }
}

#[verifier::rlimit(60)]
fn take_list(
    kind: OptionKind,
    arg: &String,
    chars: &Vec<char>,
    next: Option<&String>,
    cli: &mut CliArgs,
    tokens: &mut Vec<String>,
) -> (t: Taken)
    requires
        chars@ == arg@,
        kind == OptionKind::Compression || kind == OptionKind::Memory || kind == OptionKind::Strategy || kind
            == OptionKind::Filter,
    ensures
        is_step(
            t,
            final(cli)@,
            texts(final(tokens)@),
            kind_step(kind, arg@, next_text(next), old(cli)@, texts(old(tokens)@)),
        ),
{
    let n: usize = match kind {
        OptionKind::Filter => 2,
        _ => 3,
    };
    let (value, attached) = take_value(arg, chars, n, next, tokens);
    if let Some(v) = value {
        add_numbers(kind, v, cli);
    }
    if attached { Taken::One } else { Taken::Two }
}

#[verifier::rlimit(60)]
fn take_option(arg: &String, next: Option<&String>, cli: &mut CliArgs, tokens: &mut Vec<String>) -> (t: Taken)
    ensures
        is_step(
            t,
            final(cli)@,
            texts(final(tokens)@),
            option_step(arg@, next_text(next), old(cli)@, texts(old(tokens)@)),
        ),
{
    reveal(option_step);
    let chars = chars_of(arg.as_str());
    let kind = classify(&chars);
    match kind {
        OptionKind::Help => {
            cli.show_help = true;
            Taken::Help
        },
        OptionKind::External | OptionKind::OutFile | OptionKind::OutDir => take_name(kind, arg, next, cli, tokens),
        OptionKind::Level | OptionKind::Threads => take_number(kind, arg, next, cli, tokens),
        OptionKind::Recurse => take_recurse(kind, arg, next, cli, tokens),
        OptionKind::RecurseText | OptionKind::LevelText | OptionKind::ThreadsText => {
            proof {
                reveal_strlit("-R");
                reveal_strlit("-o");
                reveal_strlit("-mt");
            }
            take_text(kind, arg, &chars, next, cli, tokens)
        },
        OptionKind::Implementation => take_implementation(arg, &chars, next, cli, tokens),
        OptionKind::Compression | OptionKind::Memory | OptionKind::Strategy | OptionKind::Filter => take_list(
            kind,
            arg,
            &chars,
            next,
            cli,
            tokens,
        ),
        OptionKind::FilesFollow => {
            push_token(tokens, arg);
            Taken::FilesFollow
        },
        OptionKind::File => {
            push_token(&mut cli.files, arg);
            Taken::One
        },
        _ => {
            push_token(tokens, arg);
            set_flag(kind, cli);
            Taken::One
        },
    }
}

/// Strictly increasing numbers.
pub open spec fn is_ascending(s: Seq<int>) -> bool {
    forall|i: int, j: int| 0 <= i < j < s.len() ==> s[i] < s[j]
}

proof fn lemma_with_number(s: Seq<int>, v: int)
    requires
        is_ascending(s),
    ensures
        is_ascending(with_number(s, v)),
        forall|x: int| #[trigger] with_number(s, v).contains(x) <==> s.contains(x) || x == v,
    decreases s.len(),
{
    let r = with_number(s, v);
    if s.len() > 0 && s.last() > v {
        let t = s.drop_last();
        let q = with_number(t, v);
        lemma_with_number(t, v);
        assert forall|i: int| 0 <= i < q.len() implies q[i] < s.last() by {
            assert(q.contains(q[i]));
            if t.contains(q[i]) {
                let k = choose|k: int| 0 <= k < t.len() && t[k] == q[i];
                assert(s[k] < s[s.len() - 1]);
            }
        }
        assert forall|x: int| #[trigger] r.contains(x) <==> s.contains(x) || x == v by {
            if r.contains(x) {
                let k = choose|k: int| 0 <= k < r.len() && r[k] == x;
                if k < q.len() {
                    assert(q.contains(q[k]));
                    if t.contains(x) {
                        let m = choose|m: int| 0 <= m < t.len() && t[m] == x;
                        assert(s[m] == x);
                    }
                } else {
                    assert(s[s.len() - 1] == x);
                }
            }
            if s.contains(x) {
                let m = choose|m: int| 0 <= m < s.len() && s[m] == x;
                if m < t.len() {
                    assert(t[m] == x);
                    assert(q.contains(x));
                    let k = choose|k: int| 0 <= k < q.len() && q[k] == x;
                    assert(r[k] == x);
                } else {
                    assert(r[r.len() - 1] == x);
                }
            }
            if x == v {
                assert(q.contains(x));
                let k = choose|k: int| 0 <= k < q.len() && q[k] == x;
                assert(r[k] == x);
            }
        }
    } else if s.len() > 0 && s.last() == v {
        assert(s[s.len() - 1] == v);
    } else {
        assert forall|x: int| #[trigger] r.contains(x) <==> s.contains(x) || x == v by {
            if r.contains(x) {
                let k = choose|k: int| 0 <= k < r.len() && r[k] == x;
                if k < s.len() {
                    assert(s[k] == x);
                }
            }
            if s.contains(x) {
                let m = choose|m: int| 0 <= m < s.len() && s[m] == x;
                assert(r[m] == x);
            }
            if x == v {
                assert(r[s.len() as int] == x);
            }
        }
        if s.len() > 0 {
            assert forall|i: int, j: int| 0 <= i < j < r.len() implies r[i] < r[j] by {
                assert(s[i] <= s[s.len() - 1]);
            }
        }
    }
}

/// A list option's values are tried in ascending order, each once, whatever
/// order and how often they were given.
pub proof fn law_lists_are_ascending(s: Seq<int>)
    ensures
        is_ascending(ascending(s)),
        forall|x: int| #[trigger] ascending(s).contains(x) <==> s.contains(x),
    decreases s.len(),
{
    if s.len() > 0 {
        let t = s.drop_last();
        law_lists_are_ascending(t);
        lemma_with_number(ascending(t), s.last());
        assert forall|x: int| #[trigger] ascending(s).contains(x) <==> s.contains(x) by {
            assert(ascending(t).contains(x) <==> t.contains(x));
            if s.contains(x) {
                let m = choose|m: int| 0 <= m < s.len() && s[m] == x;
                if m < t.len() {
                    assert(t[m] == x);
                }
            }
            if t.contains(x) {
                let m = choose|m: int| 0 <= m < t.len() && t[m] == x;
                assert(s[m] == x);
            }
            assert(s[s.len() - 1] == s.last());
        }
    }
}

fn add_number(list: &mut Vec<i32>, v: i32)
    ensures
        ints_i32(final(list)@) == with_number(ints_i32(old(list)@), v as int),
{
    let ghost s = ints_i32(list@);
    let len: usize = list.len();
    let mut i: usize = len;
    proof {
        assert(s.take(len as int) =~= s);
        assert(with_number(s, v as int) =~= with_number(s.take(i as int), v as int) + s.skip(i as int));
    }
    while i > 0 && list[i - 1] > v
        invariant
            i <= len,
            len == list@.len(),
            s == ints_i32(list@),
            *list == *old(list),
            with_number(s, v as int) == with_number(s.take(i as int), v as int) + s.skip(i as int),
        decreases i,
    {
        proof {
            let t = s.take(i as int);
            assert(t.last() == list@[i - 1] as int);
            assert(t.drop_last() =~= s.take(i - 1));
            assert(with_number(s.take(i - 1), v as int).push(t.last()) + s.skip(i as int) =~= with_number(
                s.take(i - 1),
                v as int,
            ) + s.skip(i - 1));
        }
        i = i - 1;
    }
    proof {
        let t = s.take(i as int);
        if i > 0 {
            assert(t.last() == list@[i - 1] as int);
        }
    }
    if i > 0 && list[i - 1] == v {
        assert(s.take(i as int) + s.skip(i as int) =~= s);
    } else {
        list.insert(i, v);
        assert(ints_i32(list@) =~= s.take(i as int).push(v as int) + s.skip(i as int));
    }
}

fn sort_i32(list: &Vec<i32>) -> (out: Vec<i32>)
    ensures
        ints_i32(out@) == ascending(ints_i32(list@)),
{
    let ghost s = ints_i32(list@);
    let mut out: Vec<i32> = Vec::new();
    let mut i: usize = 0;
    assert(ints_i32(out@) =~= ascending(s.take(0)));
    while i < list.len()
        invariant
            i <= list@.len(),
            s == ints_i32(list@),
            ints_i32(out@) == ascending(s.take(i as int)),
        decreases list@.len() - i,
    {
        add_number(&mut out, list[i]);
        assert(s.take(i + 1).drop_last() =~= s.take(i as int));
        assert(s.take(i + 1).last() == list@[i as int] as int);
        i = i + 1;
    }
    assert(s.take(i as int) =~= s);
    out
}

fn sort_list_i32(list: &mut Option<Vec<i32>>)
    ensures
        list_of(*final(list)) == ascending_i32(list_of(*old(list))),
{
    if let Some(l) = list.take() {
        let out = sort_i32(&l);
        assert(out@ =~= ints_i32(out@).map_values(|v: int| v as i32));
        *list = Some(out);
    }
}

fn sort_list_u8(list: &mut Option<Vec<u8>>)
    ensures
        list_of(*final(list)) == ascending_u8(list_of(*old(list))),
{
    if let Some(l) = list.take() {
        let mut wide: Vec<i32> = Vec::new();
        let mut i: usize = 0;
        while i < l.len()
            invariant
                i <= l@.len(),
                wide@.len() == i,
                forall|k: int| 0 <= k < i ==> wide@[k] as int == l@[k] as int,
            decreases l@.len() - i,
        {
            wide.push(l[i] as i32);
            i = i + 1;
        }
        assert(ints_i32(wide@) =~= ints_u8(l@));
        let sorted = sort_i32(&wide);
        let ghost s = ints_u8(l@);
        proof {
            law_lists_are_ascending(s);
            assert forall|k: int| 0 <= k < sorted@.len() implies 0 <= #[trigger] sorted@[k] <= 255 by {
                assert(ints_i32(sorted@)[k] == sorted@[k] as int);
                assert(ascending(s).contains(sorted@[k] as int));
                let m = choose|m: int| 0 <= m < s.len() && s[m] == sorted@[k] as int;
                assert(s[m] == l@[m] as int);
            }
        }
        let mut out: Vec<u8> = Vec::new();
        let mut j: usize = 0;
        while j < sorted.len()
            invariant
                j <= sorted@.len(),
                forall|k: int| 0 <= k < sorted@.len() ==> 0 <= #[trigger] sorted@[k] <= 255,
                out@.len() == j,
                forall|k: int| 0 <= k < j ==> out@[k] as int == sorted@[k] as int,
            decreases sorted@.len() - j,
        {
            out.push(sorted[j] as u8);
            j = j + 1;
        }
        assert(ints_u8(out@) =~= ints_i32(sorted@));
        assert(out@ =~= ints_u8(out@).map_values(|v: int| v as u8));
        *list = Some(out);
    }
}

#[verifier::rlimit(60)]
fn order_lists(cli: &mut CliArgs)
    ensures
        final(cli)@ == ordered_args(old(cli)@),
{
    sort_list_i32(&mut cli.zc);
    sort_list_i32(&mut cli.zm);
    sort_list_i32(&mut cli.zs);
    sort_list_u8(&mut cli.f);
}

#[verifier::rlimit(60)]
fn finish_args(cli: &mut CliArgs, tokens: &Vec<String>, available: usize)
    ensures
        final(cli)@ == finished_args(old(cli)@, texts(tokens@), available),
{
    if cli.opt_level == 0 {
        cli.nx = true;
        cli.nz = true;
    }
    cli.cmd_options = join_strings(tokens, " ");
    order_lists(cli);
    if cli.mt == 0 {
        let n: u128 = (available as u128 * 3) / 4;
        cli.mt = if n > 1 { n as usize } else { 1 };
    }
}

fn add_files(cli: &mut CliArgs, raw_args: &Vec<String>, from: usize)
    requires
        from <= raw_args@.len(),
    ensures
        final(cli)@ == (CliView {
            files: old(cli)@.files + texts(raw_args@).skip(from as int),
            ..old(cli)@
        }),
{
    let ghost args = texts(raw_args@);
    let ghost at = cli@;
    let len: usize = raw_args.len();
    let mut k: usize = from;
    assert(cli@.files =~= at.files + args.subrange(from as int, k as int));
    while k < len
        invariant
            from <= k <= len,
            len == raw_args@.len(),
            args == texts(raw_args@),
            cli@ == (CliView { files: at.files + args.subrange(from as int, k as int), ..at }),
        decreases len - k,
    {
        push_token(&mut cli.files, &raw_args[k]);
        assert(args[k as int] == raw_args@[k as int]@);
        assert(cli@.files =~= at.files + args.subrange(from as int, k + 1));
        k = k + 1;
    }
    assert(args.subrange(from as int, k as int) =~= args.skip(from as int));
}

/// Reads command-line arguments on a machine with `available` processors.
/// An `Err` holds the message with which the program ends.
#[verifier::rlimit(60)]
pub fn parse_args(raw_args: &Vec<String>, available: usize) -> (r: Result<CliArgs, String>)
    ensures
        match r {
            Ok(cli) => read_args(texts(raw_args@), available) == Ok::<CliView, Seq<char>>(cli@),
            Err(text) => read_args(texts(raw_args@), available) == Err::<CliView, Seq<char>>(text@),
        },
{
    let mut cli = CliArgs {
        files: Vec::new(),
        external_input: None,
        opt_level: 2,
        mt: 0,
        zi: 1,
        zc: None,
        zm: None,
        zs: None,
        f: None,
        backup: false,
        simulate: false,
        quiet: false,
        nc: false,
        nb: false,
        np: false,
        nx: false,
        nz: false,
        out_file: None,
        out_dir: None,
        recursive: false,
        max_depth: None,
        show_help: false,
        force_trials: false,
        force_reenc: false,
        cmd_options: String::new(),
        usage_error: None,
    };
    let mut tokens: Vec<String> = Vec::new();
    let ghost args = texts(raw_args@);
    proof {
        assert(cli@.files =~= default_args().files);
        assert(cli@.cmd_options =~= default_args().cmd_options);
        assert(texts(tokens@) =~= Seq::<Seq<char>>::empty());
    }
    let mut i: usize = 0;
    let len: usize = raw_args.len();
    while i < len
        invariant
            len == raw_args@.len(),
            args == texts(raw_args@),
            i <= len + 1,
            read_args(args, available) == args_from(args, i as int, cli@, texts(tokens@), available),
        decreases len + 1 - i,
    {
        let next = if len - i > 1 { Some(&raw_args[i + 1]) } else { None };
        assert(args[i as int] == raw_args@[i as int]@);
        let taken = take_option(&raw_args[i], next, &mut cli, &mut tokens);
        assert(next_text(next) == (if i + 1 < args.len() { Some(args[i + 1]) } else { None }));
        match taken {
            Taken::One => {
                i = i + 1;
            },
            Taken::Two => {
                if len - i == 1 {
                    assert(args_from(args, i + 2, cli@, texts(tokens@), available) == Ok::<CliView, Seq<char>>(
                        finished_args(cli@, texts(tokens@), available),
                    ));
                    finish_args(&mut cli, &tokens, available);
                    return Ok(cli);
                }
                i = i + 2;
            },
            Taken::Help => {
                return Ok(cli);
            },
            Taken::Refused(text) => {
                return Err(text.to_string());
            },
            Taken::FilesFollow => {
                add_files(&mut cli, raw_args, i + 1);
                finish_args(&mut cli, &tokens, available);
                return Ok(cli);
            },
        }
    }
    finish_args(&mut cli, &tokens, available);
    Ok(cli)
}

/// What holds of the arguments while they are read.
pub open spec fn is_reading(cli: CliView) -> bool {
    cli.opt_level <= 7 && (cli.zi == 1 || cli.zi == 2) && !cli.show_help
}

/// Arguments that a run can start with: a known level and encoder, a thread
/// to work with, and neither reduction nor recoding at level 0.
pub open spec fn is_runnable(cli: CliView) -> bool {
    &&& is_reading(cli)
    &&& cli.mt >= 1
    &&& cli.opt_level == 0 ==> cli.nx && cli.nz
}

proof fn lemma_option_step(arg: Seq<char>, next: Option<Seq<char>>, cli: CliView, tokens: Seq<Seq<char>>)
    requires
        is_reading(cli),
    ensures
        match option_step(arg, next, cli, tokens) {
            Step::Next { cli: c, tokens: k, used } => is_reading(c),
            Step::FilesFollow { cli: c, tokens: k } => is_reading(c),
            Step::Help(c) => c.show_help,
            Step::Refused(message) => message == zi_range_message() || message == zi_value_message(),
        },
{
    reveal(option_step);
    lemma_parse_unsigned(arg.skip(2), 255);
    if next is Some {
        lemma_parse_unsigned(next->0, 255);
    }
}

proof fn lemma_args_from(args: Seq<Seq<char>>, i: int, cli: CliView, tokens: Seq<Seq<char>>, available: usize)
    requires
        0 <= i <= args.len() + 1,
        is_reading(cli),
    ensures
        match args_from(args, i, cli, tokens, available) {
            Ok(c) => c.show_help || is_runnable(c),
            Err(message) => message == zi_range_message() || message == zi_value_message(),
        },
    decreases args.len() + 1 - i,
{
    if i < args.len() {
        let next = if i + 1 < args.len() { Some(args[i + 1]) } else { None };
        lemma_option_step(args[i], next, cli, tokens);
        match option_step(args[i], next, cli, tokens) {
            Step::Next { cli: c, tokens: k, used } => {
                if used == 1 {
                    lemma_args_from(args, i + 1, c, k, available);
                } else {
                    lemma_args_from(args, i + 2, c, k, available);
                }
            },
            _ => {},
        }
    }
}

/// Whatever the command line holds, reading it ends in a request for help,
/// in arguments that a run can start with, or in one of the two messages on
/// option `-zi`.
pub proof fn law_arguments_are_usable(args: Seq<Seq<char>>, available: usize)
    ensures
        match read_args(args, available) {
            Ok(c) => c.show_help || is_runnable(c),
            Err(message) => message == zi_range_message() || message == zi_value_message(),
        },
{
    lemma_args_from(args, 0, default_args(), Seq::empty(), available);
}

/// How a run starts.
#[derive(Debug, Clone, Copy, PartialEq, Eq, Structural)]
pub enum Startup {
    /// With the help text, and that is all.
    Help,
    /// Not at all: there is nothing to work on.
    NoInput,
    /// With looking for files.
    Run,
}

/// How a run with the arguments starts.
pub open spec fn startup_with(cli: CliView) -> Startup {
    if cli.show_help {
        Startup::Help
    } else if cli.files.len() == 0 && cli.external_input is None {
        Startup::NoInput
    } else {
        Startup::Run
    }
}

/// How a run with the arguments starts.
pub fn startup(cli: &CliArgs) -> (s: Startup)
    ensures
        s == startup_with(cli@),
        s == (if cli@.show_help {
            Startup::Help
        } else if cli@.files.len() == 0 && cli@.external_input is None {
            Startup::NoInput
        } else {
            Startup::Run
        }),
{
    if cli.show_help {
        Startup::Help
    } else if cli.files.len() == 0 && cli.external_input.is_none() {
        Startup::NoInput
    } else {
        Startup::Run
    }
}

}
