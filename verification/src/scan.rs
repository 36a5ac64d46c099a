//! Which files are taken up, and where their output goes.
use crate::models::CliArgs;
use crate::text::{chars_of, text_of};
use vstd::prelude::*;

verus! {

/// What was found while looking for files.
#[derive(Debug, Clone, Copy, PartialEq, Eq, Structural)]
pub struct ScanStats {
    /// PNG files.
    pub valid_pngs: usize,
    /// PNG files that were optimized before.
    pub already_optimized: usize,
    /// Other files, and files that only pretend to be PNG files.
    pub non_pngs: usize,
}

/// What is done with a file that was found.
#[derive(Debug, Clone, Copy, PartialEq, Eq, Structural)]
pub enum Found {
    /// It is not a PNG file.
    Invalid,
    /// It was optimized before.
    Optimized,
    /// It is taken up.
    TakenUp,
}

/// One more, as far as it can be counted.
pub open spec fn one_more(n: usize) -> usize {
    if n < usize::MAX { (n + 1) as usize } else { n }
}

impl ScanStats {
    /// No more files were optimized before than there are.
    pub open spec fn wf(&self) -> bool {
        self.already_optimized <= self.valid_pngs
    }

    /// Nothing found yet.
    pub fn new() -> (s: ScanStats)
        ensures
            s.wf(),
            s.valid_pngs == 0,
            s.already_optimized == 0,
            s.non_pngs == 0,
    {
        ScanStats { valid_pngs: 0, already_optimized: 0, non_pngs: 0 }
    }

    /// Counts a file that has been looked into, and says what is done with
    /// it.
    pub fn count_checked(&mut self, is_valid: bool, is_already_optimized: bool) -> (found: Found)
        requires
            old(self).wf(),
        ensures
            final(self).wf(),
            found == (if !is_valid {
                Found::Invalid
            } else if is_already_optimized {
                Found::Optimized
            } else {
                Found::TakenUp
            }),
            final(self).non_pngs == (if found is Invalid { one_more(old(self).non_pngs) } else { old(self).non_pngs }),
            final(self).valid_pngs == (if found is Invalid {
                old(self).valid_pngs
            } else {
                one_more(old(self).valid_pngs)
            }),
            final(self).already_optimized == (if found is Optimized {
                one_more(old(self).already_optimized)
            } else {
                old(self).already_optimized
            }),
    {
        if !is_valid {
            self.non_pngs = self.non_pngs.saturating_add(1);
            return Found::Invalid;
        }
        self.valid_pngs = self.valid_pngs.saturating_add(1);
        if is_already_optimized {
            self.already_optimized = self.already_optimized.saturating_add(1);
            Found::Optimized
        } else {
            Found::TakenUp
        }
    }

    /// Counts a file that does not claim to be a PNG file.
    pub fn count_other(&mut self)
        requires
            old(self).wf(),
        ensures
            final(self).wf(),
            final(self).non_pngs == one_more(old(self).non_pngs),
            final(self).valid_pngs == old(self).valid_pngs,
            final(self).already_optimized == old(self).already_optimized,
    {
        self.non_pngs = self.non_pngs.saturating_add(1);
    }

    /// The number of files that are taken up.
    pub fn to_process(&self) -> (n: usize)
        requires
            self.wf(),
        ensures
            n == self.valid_pngs - self.already_optimized,
    {
        self.valid_pngs - self.already_optimized
    }
}

/// The depth of the directories below one at `current_depth`, if they are
/// looked into.
pub open spec fn next_depth(current_depth: usize, max_depth: Option<usize>, recursive: bool) -> Option<usize> {
    if recursive && current_depth < usize::MAX && (max_depth matches Some(limit) ==> current_depth < limit) {
        Some((current_depth + 1) as usize)
    } else {
        None
    }
}

/// The depth of the directories below one at `current_depth`, if they are
/// looked into.
pub fn depth_below(current_depth: usize, max_depth: Option<usize>, recursive: bool) -> (r: Option<usize>)
    ensures
        r == next_depth(current_depth, max_depth, recursive),
        r == (if recursive && current_depth < usize::MAX && (max_depth matches Some(limit) ==> current_depth + 1
            <= limit) {
            Some((current_depth + 1) as usize)
        } else {
            None
        }),
{
    if !recursive || current_depth == usize::MAX {
        return None;
    }
    let next: usize = current_depth + 1;
    match max_depth {
        Some(limit) => if next <= limit { Some(next) } else { None },
        None => Some(next),
    }
}

/// The letter in lower case, if it is a letter from `A` to `Z`.
pub open spec fn lower(c: char) -> char {
    if 'A' <= c && c <= 'Z' { (c as int + 32) as char } else { c }
}

/// The texts are the same but for the case of letters from `A` to `Z`.
pub open spec fn same_but_case(a: Seq<char>, b: Seq<char>) -> bool {
    a.len() == b.len() && forall|i: int| 0 <= i < a.len() ==> lower(#[trigger] a[i]) == lower(b[i])
}

/// Whether a file with the extension claims to be a PNG file.
pub fn is_png_extension(ext: &str) -> (r: bool)
    ensures
        r == same_but_case(ext@, "png"@),
{
    let c = chars_of(ext);
    proof {
        reveal_strlit("png");
    }
    if c.len() != 3 {
        return false;
    }
    let r: bool = (c[0] == 'p' || c[0] == 'P') && (c[1] == 'n' || c[1] == 'N') && (c[2] == 'g' || c[2] == 'G');
    proof {
        let p = "png"@;
        assert(p[0] == 'p' && p[1] == 'n' && p[2] == 'g');
        if r {
            assert forall|i: int| 0 <= i < c@.len() implies lower(#[trigger] c@[i]) == lower(p[i]) by {
                assert(i == 0 || i == 1 || i == 2);
            }
        } else if same_but_case(ext@, p) {
            assert(lower(c@[0]) == lower(p[0]));
            assert(lower(c@[1]) == lower(p[1]));
            assert(lower(c@[2]) == lower(p[2]));
        }
    }
    r
}

/// What is done with an entry of a directory.
#[derive(Debug, Clone, Copy, PartialEq, Eq, Structural)]
pub enum EntryAction {
    /// It is a directory, and is looked into at this depth.
    Descend(usize),
    /// It claims to be a PNG file, and is checked.
    Check,
    /// It is a file of another kind, and is counted.
    CountOther,
    /// Nothing.
    Ignore,
}

/// What is done with an entry of a directory at `current_depth`.
pub open spec fn action_for(
    is_dir: bool,
    is_file: bool,
    extension: Option<Seq<char>>,
    below: Option<usize>,
) -> EntryAction {
    if is_dir {
        match below {
            Some(depth) => EntryAction::Descend(depth),
            None => EntryAction::Ignore,
        }
    } else if !is_file {
        EntryAction::Ignore
    } else if extension matches Some(ext) && same_but_case(ext, "png"@) {
        EntryAction::Check
    } else {
        EntryAction::CountOther
    }
}

/// Decides what is done with an entry of a directory. `below` is the depth
/// that `depth_below` gives for the directory.
pub fn entry_action(is_dir: bool, is_file: bool, extension: &Option<String>, below: Option<usize>) -> (a: EntryAction)
    ensures
        a == action_for(is_dir, is_file, text_of(*extension), below),
{
    if is_dir {
        match below {
            Some(depth) => EntryAction::Descend(depth),
            None => EntryAction::Ignore,
        }
    } else if !is_file {
        EntryAction::Ignore
    } else {
        match extension {
            Some(ext) => if is_png_extension(ext.as_str()) { EntryAction::Check } else { EntryAction::CountOther },
            None => EntryAction::CountOther,
        }
    }
}

/// Where the output of a file goes.
#[derive(Debug)]
pub enum OutputPlace {
    /// Into a directory, under the name of the input.
    Directory(String),
    /// To a file.
    File(String),
    /// Beside the input, with the extension of PNG files.
    Beside,
    /// In place of the input.
    InPlace,
}

/// What a place is.
pub enum PlaceView {
    Directory(Seq<char>),
    File(Seq<char>),
    Beside,
    InPlace,
}

impl View for OutputPlace {
    type V = PlaceView;

    open spec fn view(&self) -> PlaceView {
        match self {
            OutputPlace::Directory(s) => PlaceView::Directory(s@),
            OutputPlace::File(s) => PlaceView::File(s@),
            OutputPlace::Beside => PlaceView::Beside,
            OutputPlace::InPlace => PlaceView::InPlace,
        }
    }
}

/// The output that the arguments name: the one of option `-out`, or else,
/// for an input in another format, the argument behind it.
pub open spec fn named_output(cli: &CliArgs, is_external: bool) -> Option<Seq<char>> {
    match cli.out_file {
        Some(s) => Some(s@),
        None => if is_external && cli.out_dir is None && cli.files@.len() > 0 {
            Some(cli.files@[0]@)
        } else {
            None
        },
    }
}

pub open spec fn ends_as_directory(s: Seq<char>) -> bool {
    s.len() > 0 && (s.last() == '/' || s.last() == '\\')
}

/// Where the output of a file goes, when `is_dir` says whether the named
/// output is a directory already.
pub open spec fn place_for(cli: &CliArgs, is_external: bool, is_multi_file: bool, is_dir: bool) -> PlaceView {
    match named_output(cli, is_external) {
        Some(s) => if is_multi_file || is_dir || ends_as_directory(s) {
            PlaceView::Directory(s)
        } else {
            PlaceView::File(s)
        },
        None => match cli.out_dir {
            Some(dir) => PlaceView::Directory(dir@),
            None => if is_external { PlaceView::Beside } else { PlaceView::InPlace },
        },
    }
}

/// The output that the arguments name.
pub fn output_name<'a>(cli: &'a CliArgs, is_external: bool) -> (r: Option<&'a String>)
    ensures
        match r {
            Some(s) => named_output(cli, is_external) == Some(s@),
            None => named_output(cli, is_external) is None,
        },
{
    match &cli.out_file {
        Some(s) => Some(s),
        None => if is_external && cli.out_dir.is_none() && cli.files.len() > 0 { Some(&cli.files[0]) } else { None },
    }
}

/// Decides where the output of a file goes.
pub fn choose_output(cli: &CliArgs, is_external: bool, is_multi_file: bool, is_dir: bool) -> (place: OutputPlace)
    ensures
        place@ == place_for(cli, is_external, is_multi_file, is_dir),
{
    match output_name(cli, is_external) {
        Some(s) => {
            let c = chars_of(s.as_str());
            let n: usize = c.len();
            let ends: bool = n > 0 && (c[n - 1] == '/' || c[n - 1] == '\\');
            if is_multi_file || is_dir || ends {
                OutputPlace::Directory(s.clone())
            } else {
                OutputPlace::File(s.clone())
            }
        },
        None => match &cli.out_dir {
            Some(dir) => OutputPlace::Directory(dir.clone()),
            None => if is_external { OutputPlace::Beside } else { OutputPlace::InPlace },
        },
    }
}

/// Only a file that is optimized without a named output is replaced.
pub proof fn law_named_output_leaves_the_input(cli: &CliArgs, is_external: bool, is_multi_file: bool, is_dir: bool)
    ensures
        place_for(cli, is_external, is_multi_file, is_dir) is InPlace <==> !is_external && cli.out_file is None
            && cli.out_dir is None,
{
}

}
