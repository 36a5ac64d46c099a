//! What each option of the command line does.
use crate::cli::{
    args_from, ascending, finished_args, ints_i32, ints_u8, is_numbered, kind_step, law_lists_are_ascending,
    option_kind, option_step, read_args, CliView, OptionKind,
};
use crate::text::{
    all_digits, digits_value, find, has_prefix, is_digit, lemma_find, parse_signed, parse_unsigned, split_on,
};
use crate::utils::{byte_numbers, list_numbers, part_numbers, parts_numbers};
use vstd::prelude::*;

verus! {

/// The characters of the options' names.
proof fn lemma_names()
    ensures
        "-h"@ == seq!['-', 'h'],
        "--help"@ == seq!['-', '-', 'h', 'e', 'l', 'p'],
        "-e"@ == seq!['-', 'e'],
        "-out"@ == seq!['-', 'o', 'u', 't'],
        "-dir"@ == seq!['-', 'd', 'i', 'r'],
        "-R"@ == seq!['-', 'R'],
        "-ft"@ == seq!['-', 'f', 't'],
        "-force"@ == seq!['-', 'f', 'o', 'r', 'c', 'e'],
        "-o"@ == seq!['-', 'o'],
        "-mt"@ == seq!['-', 'm', 't'],
        "-zi"@ == seq!['-', 'z', 'i'],
        "-zc"@ == seq!['-', 'z', 'c'],
        "-zm"@ == seq!['-', 'z', 'm'],
        "-zs"@ == seq!['-', 'z', 's'],
        "-f"@ == seq!['-', 'f'],
        "-backup"@ == seq!['-', 'b', 'a', 'c', 'k', 'u', 'p'],
        "-keep"@ == seq!['-', 'k', 'e', 'e', 'p'],
        "-simulate"@ == seq!['-', 's', 'i', 'm', 'u', 'l', 'a', 't', 'e'],
        "-quiet"@ == seq!['-', 'q', 'u', 'i', 'e', 't'],
        "-silent"@ == seq!['-', 's', 'i', 'l', 'e', 'n', 't'],
        "-nc"@ == seq!['-', 'n', 'c'],
        "-nb"@ == seq!['-', 'n', 'b'],
        "-np"@ == seq!['-', 'n', 'p'],
        "-nx"@ == seq!['-', 'n', 'x'],
        "-nz"@ == seq!['-', 'n', 'z'],
        "--"@ == seq!['-', '-'],
        "-"@ == seq!['-'],
{
    reveal_strlit("-h");
    reveal_strlit("--help");
    reveal_strlit("-e");
    reveal_strlit("-out");
    reveal_strlit("-dir");
    reveal_strlit("-R");
    reveal_strlit("-ft");
    reveal_strlit("-force");
    reveal_strlit("-o");
    reveal_strlit("-mt");
    reveal_strlit("-zi");
    reveal_strlit("-zc");
    reveal_strlit("-zm");
    reveal_strlit("-zs");
    reveal_strlit("-f");
    reveal_strlit("-backup");
    reveal_strlit("-keep");
    reveal_strlit("-simulate");
    reveal_strlit("-quiet");
    reveal_strlit("-silent");
    reveal_strlit("-nc");
    reveal_strlit("-nb");
    reveal_strlit("-np");
    reveal_strlit("-nx");
    reveal_strlit("-nz");
    reveal_strlit("--");
    reveal_strlit("-");
    assert("-h"@ =~= seq!['-', 'h']);
    assert("--help"@ =~= seq!['-', '-', 'h', 'e', 'l', 'p']);
    assert("-e"@ =~= seq!['-', 'e']);
    assert("-out"@ =~= seq!['-', 'o', 'u', 't']);
    assert("-dir"@ =~= seq!['-', 'd', 'i', 'r']);
    assert("-R"@ =~= seq!['-', 'R']);
    assert("-ft"@ =~= seq!['-', 'f', 't']);
    assert("-force"@ =~= seq!['-', 'f', 'o', 'r', 'c', 'e']);
    assert("-o"@ =~= seq!['-', 'o']);
    assert("-mt"@ =~= seq!['-', 'm', 't']);
    assert("-zi"@ =~= seq!['-', 'z', 'i']);
    assert("-zc"@ =~= seq!['-', 'z', 'c']);
    assert("-zm"@ =~= seq!['-', 'z', 'm']);
    assert("-zs"@ =~= seq!['-', 'z', 's']);
    assert("-f"@ =~= seq!['-', 'f']);
    assert("-backup"@ =~= seq!['-', 'b', 'a', 'c', 'k', 'u', 'p']);
    assert("-keep"@ =~= seq!['-', 'k', 'e', 'e', 'p']);
    assert("-simulate"@ =~= seq!['-', 's', 'i', 'm', 'u', 'l', 'a', 't', 'e']);
    assert("-quiet"@ =~= seq!['-', 'q', 'u', 'i', 'e', 't']);
    assert("-silent"@ =~= seq!['-', 's', 'i', 'l', 'e', 'n', 't']);
    assert("-nc"@ =~= seq!['-', 'n', 'c']);
    assert("-nb"@ =~= seq!['-', 'n', 'b']);
    assert("-np"@ =~= seq!['-', 'n', 'p']);
    assert("-nx"@ =~= seq!['-', 'n', 'x']);
    assert("-nz"@ =~= seq!['-', 'n', 'z']);
    assert("--"@ =~= seq!['-', '-']);
    assert("-"@ =~= seq!['-']);
}

/// A text is equal to a name, or begins with it, if its characters say so.
proof fn lemma_name(arg: Seq<char>, name: Seq<char>)
    ensures
        has_prefix(arg, name) <==> arg.len() >= name.len() && forall|i: int|
            0 <= i < name.len() ==> #[trigger] arg[i] == name[i],
        arg == name <==> arg.len() == name.len() && forall|i: int|
            0 <= i < name.len() ==> #[trigger] arg[i] == name[i],
        is_numbered(arg, name) <==> has_prefix(arg, name) && arg.len() > name.len() && all_digits(
            arg.skip(name.len() as int),
        ),
{
    if arg.len() >= name.len() && forall|i: int| 0 <= i < name.len() ==> #[trigger] arg[i] == name[i] {
        assert(arg.take(name.len() as int) =~= name);
        if arg.len() == name.len() {
            assert(arg =~= name);
        }
    }
    if has_prefix(arg, name) {
        assert forall|i: int| 0 <= i < name.len() implies #[trigger] arg[i] == name[i] by {
            assert(arg.take(name.len() as int)[i] == name[i]);
        }
    }
}

/// Which option an argument is can be seen from its characters.
#[verifier::rlimit(80)]
#[verifier::spinoff_prover]
proof fn lemma_all_names(arg: Seq<char>)
    ensures
        arg == "-h"@ <==> arg.len() == 2 && arg[0] == '-' && arg[1] == 'h',
        arg == "--help"@ <==> arg.len() == 6 && arg[0] == '-' && arg[1] == '-' && arg[2] == 'h' && arg[3] == 'e'
            && arg[4] == 'l' && arg[5] == 'p',
        arg == "-e"@ <==> arg.len() == 2 && arg[0] == '-' && arg[1] == 'e',
        arg == "-out"@ <==> arg.len() == 4 && arg[0] == '-' && arg[1] == 'o' && arg[2] == 'u' && arg[3] == 't',
        arg == "-dir"@ <==> arg.len() == 4 && arg[0] == '-' && arg[1] == 'd' && arg[2] == 'i' && arg[3] == 'r',
        arg == "-R"@ <==> arg.len() == 2 && arg[0] == '-' && arg[1] == 'R',
        arg == "-ft"@ <==> arg.len() == 3 && arg[0] == '-' && arg[1] == 'f' && arg[2] == 't',
        arg == "-force"@ <==> arg.len() == 6 && arg[0] == '-' && arg[1] == 'f' && arg[2] == 'o' && arg[3] == 'r'
            && arg[4] == 'c' && arg[5] == 'e',
        arg == "-o"@ <==> arg.len() == 2 && arg[0] == '-' && arg[1] == 'o',
        arg == "-mt"@ <==> arg.len() == 3 && arg[0] == '-' && arg[1] == 'm' && arg[2] == 't',
        arg == "-zi"@ <==> arg.len() == 3 && arg[0] == '-' && arg[1] == 'z' && arg[2] == 'i',
        arg == "-zc"@ <==> arg.len() == 3 && arg[0] == '-' && arg[1] == 'z' && arg[2] == 'c',
        arg == "-zm"@ <==> arg.len() == 3 && arg[0] == '-' && arg[1] == 'z' && arg[2] == 'm',
        arg == "-zs"@ <==> arg.len() == 3 && arg[0] == '-' && arg[1] == 'z' && arg[2] == 's',
        arg == "-f"@ <==> arg.len() == 2 && arg[0] == '-' && arg[1] == 'f',
        arg == "-backup"@ <==> arg.len() == 7 && arg[0] == '-' && arg[1] == 'b' && arg[2] == 'a'
            && arg[3] == 'c' && arg[4] == 'k' && arg[5] == 'u' && arg[6] == 'p',
        arg == "-keep"@ <==> arg.len() == 5 && arg[0] == '-' && arg[1] == 'k' && arg[2] == 'e' && arg[3] == 'e'
            && arg[4] == 'p',
        arg == "-simulate"@ <==> arg.len() == 9 && arg[0] == '-' && arg[1] == 's' && arg[2] == 'i'
            && arg[3] == 'm' && arg[4] == 'u' && arg[5] == 'l' && arg[6] == 'a' && arg[7] == 't' && arg[8] == 'e',
        arg == "-quiet"@ <==> arg.len() == 6 && arg[0] == '-' && arg[1] == 'q' && arg[2] == 'u' && arg[3] == 'i'
            && arg[4] == 'e' && arg[5] == 't',
        arg == "-silent"@ <==> arg.len() == 7 && arg[0] == '-' && arg[1] == 's' && arg[2] == 'i'
            && arg[3] == 'l' && arg[4] == 'e' && arg[5] == 'n' && arg[6] == 't',
        arg == "-nc"@ <==> arg.len() == 3 && arg[0] == '-' && arg[1] == 'n' && arg[2] == 'c',
        arg == "-nb"@ <==> arg.len() == 3 && arg[0] == '-' && arg[1] == 'n' && arg[2] == 'b',
        arg == "-np"@ <==> arg.len() == 3 && arg[0] == '-' && arg[1] == 'n' && arg[2] == 'p',
        arg == "-nx"@ <==> arg.len() == 3 && arg[0] == '-' && arg[1] == 'n' && arg[2] == 'x',
        arg == "-nz"@ <==> arg.len() == 3 && arg[0] == '-' && arg[1] == 'n' && arg[2] == 'z',
        arg == "--"@ <==> arg.len() == 2 && arg[0] == '-' && arg[1] == '-',
        has_prefix(arg, "-R"@) <==> arg.len() >= 2 && arg[0] == '-' && arg[1] == 'R',
        has_prefix(arg, "-o"@) <==> arg.len() >= 2 && arg[0] == '-' && arg[1] == 'o',
        has_prefix(arg, "-mt"@) <==> arg.len() >= 3 && arg[0] == '-' && arg[1] == 'm' && arg[2] == 't',
        has_prefix(arg, "-zi"@) <==> arg.len() >= 3 && arg[0] == '-' && arg[1] == 'z' && arg[2] == 'i',
        has_prefix(arg, "-zc"@) <==> arg.len() >= 3 && arg[0] == '-' && arg[1] == 'z' && arg[2] == 'c',
        has_prefix(arg, "-zm"@) <==> arg.len() >= 3 && arg[0] == '-' && arg[1] == 'z' && arg[2] == 'm',
        has_prefix(arg, "-zs"@) <==> arg.len() >= 3 && arg[0] == '-' && arg[1] == 'z' && arg[2] == 's',
        has_prefix(arg, "-f"@) <==> arg.len() >= 2 && arg[0] == '-' && arg[1] == 'f',
        has_prefix(arg, "-"@) <==> arg.len() >= 1 && arg[0] == '-',
{
    lemma_names();
    lemma_name(arg, "-h"@);
    lemma_name(arg, "--help"@);
    lemma_name(arg, "-e"@);
    lemma_name(arg, "-out"@);
    lemma_name(arg, "-dir"@);
    lemma_name(arg, "-R"@);
    lemma_name(arg, "-ft"@);
    lemma_name(arg, "-force"@);
    lemma_name(arg, "-o"@);
    lemma_name(arg, "-mt"@);
    lemma_name(arg, "-zi"@);
    lemma_name(arg, "-zc"@);
    lemma_name(arg, "-zm"@);
    lemma_name(arg, "-zs"@);
    lemma_name(arg, "-f"@);
    lemma_name(arg, "-backup"@);
    lemma_name(arg, "-keep"@);
    lemma_name(arg, "-simulate"@);
    lemma_name(arg, "-quiet"@);
    lemma_name(arg, "-silent"@);
    lemma_name(arg, "-nc"@);
    lemma_name(arg, "-nb"@);
    lemma_name(arg, "-np"@);
    lemma_name(arg, "-nx"@);
    lemma_name(arg, "-nz"@);
    lemma_name(arg, "--"@);
    lemma_name(arg, "-"@);
    assert("-h"@[0] == '-' && "-h"@[1] == 'h');
    assert("--help"@[0] == '-' && "--help"@[1] == '-' && "--help"@[2] == 'h' && "--help"@[3] == 'e'
        && "--help"@[4] == 'l' && "--help"@[5] == 'p');
    assert("-e"@[0] == '-' && "-e"@[1] == 'e');
    assert("-out"@[0] == '-' && "-out"@[1] == 'o' && "-out"@[2] == 'u' && "-out"@[3] == 't');
    assert("-dir"@[0] == '-' && "-dir"@[1] == 'd' && "-dir"@[2] == 'i' && "-dir"@[3] == 'r');
    assert("-R"@[0] == '-' && "-R"@[1] == 'R');
    assert("-ft"@[0] == '-' && "-ft"@[1] == 'f' && "-ft"@[2] == 't');
    assert("-force"@[0] == '-' && "-force"@[1] == 'f' && "-force"@[2] == 'o' && "-force"@[3] == 'r'
        && "-force"@[4] == 'c' && "-force"@[5] == 'e');
    assert("-o"@[0] == '-' && "-o"@[1] == 'o');
    assert("-mt"@[0] == '-' && "-mt"@[1] == 'm' && "-mt"@[2] == 't');
    assert("-zi"@[0] == '-' && "-zi"@[1] == 'z' && "-zi"@[2] == 'i');
    assert("-zc"@[0] == '-' && "-zc"@[1] == 'z' && "-zc"@[2] == 'c');
    assert("-zm"@[0] == '-' && "-zm"@[1] == 'z' && "-zm"@[2] == 'm');
    assert("-zs"@[0] == '-' && "-zs"@[1] == 'z' && "-zs"@[2] == 's');
    assert("-f"@[0] == '-' && "-f"@[1] == 'f');
    assert("-backup"@[0] == '-' && "-backup"@[1] == 'b' && "-backup"@[2] == 'a' && "-backup"@[3] == 'c'
        && "-backup"@[4] == 'k' && "-backup"@[5] == 'u' && "-backup"@[6] == 'p');
    assert("-keep"@[0] == '-' && "-keep"@[1] == 'k' && "-keep"@[2] == 'e' && "-keep"@[3] == 'e' && "-keep"@[4] == 'p');
    assert("-simulate"@[0] == '-' && "-simulate"@[1] == 's' && "-simulate"@[2] == 'i' && "-simulate"@[3] == 'm'
        && "-simulate"@[4] == 'u' && "-simulate"@[5] == 'l' && "-simulate"@[6] == 'a' && "-simulate"@[7] == 't'
        && "-simulate"@[8] == 'e');
    assert("-quiet"@[0] == '-' && "-quiet"@[1] == 'q' && "-quiet"@[2] == 'u' && "-quiet"@[3] == 'i'
        && "-quiet"@[4] == 'e' && "-quiet"@[5] == 't');
    assert("-silent"@[0] == '-' && "-silent"@[1] == 's' && "-silent"@[2] == 'i' && "-silent"@[3] == 'l'
        && "-silent"@[4] == 'e' && "-silent"@[5] == 'n' && "-silent"@[6] == 't');
    assert("-nc"@[0] == '-' && "-nc"@[1] == 'n' && "-nc"@[2] == 'c');
    assert("-nb"@[0] == '-' && "-nb"@[1] == 'n' && "-nb"@[2] == 'b');
    assert("-np"@[0] == '-' && "-np"@[1] == 'n' && "-np"@[2] == 'p');
    assert("-nx"@[0] == '-' && "-nx"@[1] == 'n' && "-nx"@[2] == 'x');
    assert("-nz"@[0] == '-' && "-nz"@[1] == 'n' && "-nz"@[2] == 'z');
    assert("--"@[0] == '-' && "--"@[1] == '-');
    assert("-"@[0] == '-');
}

/// The argument is an option of the kind.
#[verifier::opaque]
spec fn is_of_kind(arg: Seq<char>, kind: OptionKind) -> bool {
    option_kind(arg) == kind
}

/// An option does what its kind says.
proof fn lemma_step(arg: Seq<char>, kind: OptionKind)
    requires
        is_of_kind(arg, kind),
    ensures
        forall|next: Option<Seq<char>>, cli: CliView, tokens: Seq<Seq<char>>| #[trigger]
            option_step(arg, next, cli, tokens) == kind_step(kind, arg, next, cli, tokens),
{
    reveal(option_step);
    reveal(is_of_kind);
}

/// Which option a name is.
#[verifier::rlimit(80)]
#[verifier::spinoff_prover]
proof fn lemma_kinds(arg: Seq<char>)
    ensures
        arg == "-h"@ ==> is_of_kind(arg, OptionKind::Help),
        arg == "--help"@ ==> is_of_kind(arg, OptionKind::Help),
        arg == "-e"@ ==> is_of_kind(arg, OptionKind::External),
        arg == "-out"@ ==> is_of_kind(arg, OptionKind::OutFile),
        arg == "-dir"@ ==> is_of_kind(arg, OptionKind::OutDir),
        arg == "-R"@ ==> is_of_kind(arg, OptionKind::Recurse),
        arg == "-ft"@ ==> is_of_kind(arg, OptionKind::ForceTrials),
        arg == "-force"@ ==> is_of_kind(arg, OptionKind::ForceWrite),
        arg == "-zi"@ ==> is_of_kind(arg, OptionKind::Implementation),
        arg == "-zc"@ ==> is_of_kind(arg, OptionKind::Compression),
        arg == "-zm"@ ==> is_of_kind(arg, OptionKind::Memory),
        arg == "-zs"@ ==> is_of_kind(arg, OptionKind::Strategy),
        arg == "-f"@ ==> is_of_kind(arg, OptionKind::Filter),
        arg == "-o"@ ==> is_of_kind(arg, OptionKind::Level),
        arg == "-mt"@ ==> is_of_kind(arg, OptionKind::Threads),
        arg == "-backup"@ ==> is_of_kind(arg, OptionKind::Backup),
        arg == "-keep"@ ==> is_of_kind(arg, OptionKind::Backup),
        arg == "-simulate"@ ==> is_of_kind(arg, OptionKind::Simulate),
        arg == "-quiet"@ ==> is_of_kind(arg, OptionKind::Quiet),
        arg == "-silent"@ ==> is_of_kind(arg, OptionKind::Quiet),
        arg == "-nc"@ ==> is_of_kind(arg, OptionKind::NoColor),
        arg == "-nb"@ ==> is_of_kind(arg, OptionKind::NoDepth),
        arg == "-np"@ ==> is_of_kind(arg, OptionKind::NoPalette),
        arg == "-nx"@ ==> is_of_kind(arg, OptionKind::NoReduction),
        arg == "-nz"@ ==> is_of_kind(arg, OptionKind::NoRecoding),
        arg == "--"@ ==> is_of_kind(arg, OptionKind::FilesFollow),
        arg.len() == 0 || arg[0] != '-' ==> is_of_kind(arg, OptionKind::File),
{
    reveal(is_of_kind);
    lemma_all_names(arg);
    lemma_numbered_prefix(arg);
}

/// Which option a name with a number behind it is.
#[verifier::rlimit(40)]
#[verifier::spinoff_prover]
proof fn lemma_numbered_kinds(arg: Seq<char>, v: Seq<char>)
    requires
        are_digits(v),
    ensures
        arg == "-o"@ + v ==> is_of_kind(arg, OptionKind::LevelText) && arg.skip(2) == v,
        arg == "-mt"@ + v ==> is_of_kind(arg, OptionKind::ThreadsText) && arg.skip(3) == v,
        arg == "-R"@ + v ==> is_of_kind(arg, OptionKind::RecurseText) && arg.skip(2) == v,
{
    reveal(is_of_kind);
    lemma_names();
    lemma_all_names(arg);
    lemma_numbered_prefix(arg);
    lemma_behind(arg, "-o"@, v);
    lemma_behind(arg, "-mt"@, v);
    lemma_behind(arg, "-R"@, v);
    assert(all_digits(v));
    if arg == "-o"@ + v {
        assert(arg[0] == '-' && arg[1] == 'o' && arg[2] == v[0]);
        assert(is_numbered(arg, "-o"@));
    }
    if arg == "-mt"@ + v {
        assert(arg[0] == '-' && arg[1] == 'm' && arg[2] == 't');
        assert(is_numbered(arg, "-mt"@));
    }
    if arg == "-R"@ + v {
        assert(arg[0] == '-' && arg[1] == 'R');
        assert(is_numbered(arg, "-R"@));
    }
}

/// Which option a name with a list behind it is.
#[verifier::rlimit(40)]
#[verifier::spinoff_prover]
proof fn lemma_list_kinds(arg: Seq<char>, v: Seq<char>)
    requires
        v.len() > 0,
    ensures
        arg == "-zc"@ + v ==> is_of_kind(arg, OptionKind::Compression) && arg.skip(3) == v && arg.len() > 3,
        arg == "-zm"@ + v ==> is_of_kind(arg, OptionKind::Memory) && arg.skip(3) == v && arg.len() > 3,
        arg == "-zs"@ + v ==> is_of_kind(arg, OptionKind::Strategy) && arg.skip(3) == v && arg.len() > 3,
        arg == "-f"@ + v && v[0] != 't' && v[0] != 'o' ==> is_of_kind(arg, OptionKind::Filter) && arg.skip(2) == v
            && arg.len() > 2,
        "-zc"@.len() == 3 && "-zm"@.len() == 3 && "-zs"@.len() == 3 && "-f"@.len() == 2,
{
    reveal(is_of_kind);
    lemma_names();
    lemma_all_names(arg);
    lemma_numbered_prefix(arg);
    lemma_behind(arg, "-zc"@, v);
    lemma_behind(arg, "-zm"@, v);
    lemma_behind(arg, "-zs"@, v);
    lemma_behind(arg, "-f"@, v);
    if arg == "-f"@ + v {
        assert(arg[0] == '-' && arg[1] == 'f' && arg[2] == v[0]);
    }
}

/// The options that switch off reductions, and recoding, do just that: each
/// sets its own switch, is noted, and reading goes on behind it.
pub proof fn law_switches(args: Seq<Seq<char>>, i: int, cli: CliView, tokens: Seq<Seq<char>>, available: usize)
    requires
        0 <= i < args.len(),
    ensures
        ({
            let noted = tokens.push(args[i]);
            let arg = args[i];
            let r = args_from(args, i, cli, tokens, available);
            &&& arg == "-nc"@ ==> r == args_from(args, i + 1, CliView { nc: true, ..cli }, noted, available)
            &&& arg == "-nb"@ ==> r == args_from(args, i + 1, CliView { nb: true, ..cli }, noted, available)
            &&& arg == "-np"@ ==> r == args_from(args, i + 1, CliView { np: true, ..cli }, noted, available)
            &&& arg == "-nx"@ ==> r == args_from(args, i + 1, CliView { nx: true, ..cli }, noted, available)
            &&& arg == "-nz"@ ==> r == args_from(args, i + 1, CliView { nz: true, ..cli }, noted, available)
        }),
{
    let arg = args[i];
    lemma_kinds(arg);
    if arg == "-nc"@ {
        lemma_step(arg, OptionKind::NoColor);
    }
    if arg == "-nb"@ {
        lemma_step(arg, OptionKind::NoDepth);
    }
    if arg == "-np"@ {
        lemma_step(arg, OptionKind::NoPalette);
    }
    if arg == "-nx"@ {
        lemma_step(arg, OptionKind::NoReduction);
    }
    if arg == "-nz"@ {
        lemma_step(arg, OptionKind::NoRecoding);
    }
}

/// The options on how to work: backups, simulation, silence, and forced
/// trials and output.
pub proof fn law_modes(args: Seq<Seq<char>>, i: int, cli: CliView, tokens: Seq<Seq<char>>, available: usize)
    requires
        0 <= i < args.len(),
    ensures
        ({
            let noted = tokens.push(args[i]);
            let arg = args[i];
            let r = args_from(args, i, cli, tokens, available);
            &&& arg == "-backup"@ ==> r == args_from(args, i + 1, CliView { backup: true, ..cli }, noted, available)
            &&& arg == "-keep"@ ==> r == args_from(args, i + 1, CliView { backup: true, ..cli }, noted, available)
            &&& arg == "-simulate"@ ==> r == args_from(args, i + 1, CliView { simulate: true, ..cli }, noted, available)
            &&& arg == "-quiet"@ ==> r == args_from(args, i + 1, CliView { quiet: true, ..cli }, noted, available)
            &&& arg == "-silent"@ ==> r == args_from(args, i + 1, CliView { quiet: true, ..cli }, noted, available)
            &&& arg == "-ft"@ ==> r == args_from(args, i + 1, CliView { force_trials: true, ..cli }, noted, available)
            &&& arg == "-force"@ ==> r == args_from(args, i + 1, CliView { force_reenc: true, ..cli }, noted, available)
        }),
{
    let arg = args[i];
    lemma_kinds(arg);
    if arg == "-backup"@ || arg == "-keep"@ {
        lemma_step(arg, OptionKind::Backup);
    }
    if arg == "-simulate"@ {
        lemma_step(arg, OptionKind::Simulate);
    }
    if arg == "-quiet"@ || arg == "-silent"@ {
        lemma_step(arg, OptionKind::Quiet);
    }
    if arg == "-ft"@ {
        lemma_step(arg, OptionKind::ForceTrials);
    }
    if arg == "-force"@ {
        lemma_step(arg, OptionKind::ForceWrite);
    }
}

/// A request for help ends the reading.
pub proof fn law_help(args: Seq<Seq<char>>, i: int, cli: CliView, tokens: Seq<Seq<char>>, available: usize)
    requires
        0 <= i < args.len(),
        args[i] == "-h"@ || args[i] == "--help"@,
    ensures
        args_from(args, i, cli, tokens, available) == Ok::<CliView, Seq<char>>(CliView { show_help: true, ..cli }),
{
    let arg = args[i];
    lemma_kinds(arg);
    lemma_step(arg, OptionKind::Help);
}

/// The options with a name as their value take the next argument. Without
/// one, an input in another format is asked for, and the others do nothing.
/// Only the options are noted, and not the names.
pub proof fn law_names(args: Seq<Seq<char>>, i: int, cli: CliView, tokens: Seq<Seq<char>>, available: usize)
    requires
        0 <= i < args.len(),
    ensures
        ({
            let noted = tokens.push(args[i]);
            let arg = args[i];
            let r = args_from(args, i, cli, tokens, available);
            if i + 1 < args.len() {
                let v = Some(args[i + 1]);
                &&& arg == "-e"@ ==> r == args_from(args, i + 2, CliView { external_input: v, ..cli }, noted, available)
                &&& arg == "-out"@ ==> r == args_from(args, i + 2, CliView { out_file: v, ..cli }, noted, available)
                &&& arg == "-dir"@ ==> r == args_from(args, i + 2, CliView { out_dir: v, ..cli }, noted, available)
            } else {
                &&& arg == "-e"@ ==> r == Ok::<CliView, Seq<char>>(
                    CliView {
                        show_help: true,
                        usage_error: Some("Error: Option -e requires an input file argument."@),
                        ..cli
                    },
                )
                &&& arg == "-out"@ || arg == "-dir"@ ==> r == args_from(args, i + 1, cli, noted, available)
            }
        }),
{
    let arg = args[i];
    lemma_kinds(arg);
    if arg == "-e"@ {
        lemma_step(arg, OptionKind::External);
    }
    if arg == "-out"@ {
        lemma_step(arg, OptionKind::OutFile);
    }
    if arg == "-dir"@ {
        lemma_step(arg, OptionKind::OutDir);
    }
}

/// The number that digits stand for.
pub open spec fn worth(digits: Seq<char>) -> int
    decreases digits.len(),
{
    if digits.len() == 0 {
        0
    } else {
        10 * worth(digits.drop_last()) + (digits.last() as int - 48)
    }
}

/// One or more digits.
pub open spec fn are_digits(s: Seq<char>) -> bool {
    s.len() > 0 && forall|i: int| 0 <= i < s.len() ==> '0' <= #[trigger] s[i] && s[i] <= '9'
}

proof fn lemma_worth(s: Seq<char>)
    ensures
        digits_value(s) == worth(s),
    decreases s.len(),
{
    if s.len() > 0 {
        lemma_worth(s.drop_last());
    }
}

proof fn lemma_worth_bound(s: Seq<char>)
    requires
        forall|i: int| 0 <= i < s.len() ==> '0' <= #[trigger] s[i] && s[i] <= '9',
    ensures
        worth(s) >= 0,
    decreases s.len(),
{
    if s.len() > 0 {
        let t = s.drop_last();
        assert forall|i: int| 0 <= i < t.len() implies '0' <= #[trigger] t[i] && t[i] <= '9' by {
            assert(t[i] == s[i]);
        }
        lemma_worth_bound(t);
        assert('0' <= s[s.len() - 1]);
    }
}

/// Digits are read as the number that they stand for, as far as there is room
/// for it.
proof fn lemma_read_digits(s: Seq<char>, max: int)
    requires
        are_digits(s),
    ensures
        parse_unsigned(s, max) == (if worth(s) <= max { Some(worth(s)) } else { None }),
        all_digits(s),
        worth(s) >= 0,
{
    lemma_worth(s);
    lemma_worth_bound(s);
    assert('0' <= s[0] && s[0] <= '9');
}

/// What stands for no number: a text without digits, or with anything else
/// in it.
pub open spec fn is_no_number(s: Seq<char>) -> bool {
    s.len() == 0 || exists|i: int| 0 <= i < s.len() && !('0' <= #[trigger] s[i] && s[i] <= '9') && !(i == 0
        && s[i] == '+')
}

proof fn lemma_no_number(s: Seq<char>, max: int)
    requires
        is_no_number(s),
    ensures
        parse_unsigned(s, max) is None,
{
    if s.len() > 0 {
        let i = choose|i: int| 0 <= i < s.len() && !('0' <= #[trigger] s[i] && s[i] <= '9') && !(i == 0 && s[i] == '+');
        if s[0] == '+' {
            assert(i > 0);
            assert(s.skip(1)[i - 1] == s[i]);
            assert(!is_digit(s.skip(1)[i - 1]));
        } else {
            assert(!is_digit(s[i]));
        }
    }
}

/// The level: a number up to 7, and 7 for greater ones up to 255. What does
/// not fit, or is no number, counts as level 2. The level stands behind the
/// option, or in the next argument.
pub proof fn law_level(
    args: Seq<Seq<char>>,
    i: int,
    cli: CliView,
    tokens: Seq<Seq<char>>,
    available: usize,
    v: Seq<char>,
)
    requires
        0 <= i < args.len(),
        are_digits(v) || is_no_number(v),
    ensures
        ({
            let level: int = if !are_digits(v) || worth(v) > 255 {
                2
            } else if worth(v) > 7 {
                7
            } else {
                worth(v)
            };
            let c = CliView { opt_level: level as u8, ..cli };
            let r = args_from(args, i, cli, tokens, available);
            let noted = tokens.push(args[i]);
            &&& 0 <= level <= 7
            &&& args[i] == "-o"@ + v && are_digits(v) ==> r == args_from(args, i + 1, c, noted, available)
            &&& args[i] == "-o"@ && i + 1 < args.len() && args[i + 1] == v ==> r == args_from(
                args,
                i + 2,
                c,
                noted.push(v),
                available,
            )
            &&& args[i] == "-o"@ && i + 1 == args.len() ==> r == args_from(args, i + 1, cli, noted, available)
        }),
{
    let arg = args[i];
    lemma_kinds(arg);
    if arg == "-o"@ {
        lemma_step(arg, OptionKind::Level);
    }
    if are_digits(v) {
        lemma_numbered_kinds(arg, v);
        lemma_read_digits(v, 255);
        if arg == "-o"@ + v {
            lemma_step(arg, OptionKind::LevelText);
        }
    } else {
        lemma_no_number(v, 255);
    }
}

/// The number of threads: any number that fits. What is no number counts as
/// 0, which stands for the default.
pub proof fn law_threads(
    args: Seq<Seq<char>>,
    i: int,
    cli: CliView,
    tokens: Seq<Seq<char>>,
    available: usize,
    v: Seq<char>,
)
    requires
        0 <= i < args.len(),
        are_digits(v) || is_no_number(v),
    ensures
        ({
            let n: int = if !are_digits(v) || worth(v) > usize::MAX { 0 } else { worth(v) };
            let c = CliView { mt: n as usize, ..cli };
            let r = args_from(args, i, cli, tokens, available);
            let noted = tokens.push(args[i]);
            &&& 0 <= n <= usize::MAX
            &&& args[i] == "-mt"@ + v && are_digits(v) ==> r == args_from(args, i + 1, c, noted, available)
            &&& args[i] == "-mt"@ && i + 1 < args.len() && args[i + 1] == v ==> r == args_from(
                args,
                i + 2,
                c,
                noted.push(v),
                available,
            )
            &&& args[i] == "-mt"@ && i + 1 == args.len() ==> r == args_from(args, i + 1, cli, noted, available)
        }),
{
    let arg = args[i];
    lemma_kinds(arg);
    if arg == "-mt"@ {
        lemma_step(arg, OptionKind::Threads);
    }
    if are_digits(v) {
        lemma_numbered_kinds(arg, v);
        lemma_read_digits(v, usize::MAX as int);
        if arg == "-mt"@ + v {
            lemma_step(arg, OptionKind::ThreadsText);
        }
    } else {
        lemma_no_number(v, usize::MAX as int);
    }
}

/// Looking into directories: to the depth that stands behind the option or
/// in the next argument, and without a limit if there is no number, or none
/// that fits. An argument that is no number is left for what it is.
pub proof fn law_recursion(
    args: Seq<Seq<char>>,
    i: int,
    cli: CliView,
    tokens: Seq<Seq<char>>,
    available: usize,
    v: Seq<char>,
)
    requires
        0 <= i < args.len(),
        are_digits(v) || is_no_number(v),
    ensures
        ({
            let depth = if worth(v) <= usize::MAX { Some(worth(v) as usize) } else { None };
            let c = CliView { recursive: true, max_depth: depth, ..cli };
            let r = args_from(args, i, cli, tokens, available);
            let noted = tokens.push(args[i]);
            &&& args[i] == "-R"@ + v && are_digits(v) ==> r == args_from(args, i + 1, c, noted, available)
            &&& args[i] == "-R"@ && i + 1 < args.len() && args[i + 1] == v && are_digits(v) ==> r == args_from(
                args,
                i + 2,
                c,
                noted.push(v),
                available,
            )
            &&& args[i] == "-R"@ && (i + 1 == args.len() || args[i + 1] == v && v.len() > 0 && !are_digits(v)) ==> r
                == args_from(args, i + 1, CliView { recursive: true, ..cli }, noted, available)
        }),
{
    let arg = args[i];
    lemma_kinds(arg);
    if arg == "-R"@ {
        lemma_step(arg, OptionKind::Recurse);
    }
    if are_digits(v) {
        lemma_numbered_kinds(arg, v);
        lemma_read_digits(v, usize::MAX as int);
        if arg == "-R"@ + v {
            lemma_step(arg, OptionKind::RecurseText);
        }
    } else if v.len() > 0 {
        let k = choose|k: int| 0 <= k < v.len() && !('0' <= #[trigger] v[k] && v[k] <= '9') && !(k == 0 && v[k] == '+');
        assert(!is_digit(v[k]));
    }
}

/// Arguments that are no options are files; behind `--` all are.
pub proof fn law_files(args: Seq<Seq<char>>, i: int, cli: CliView, tokens: Seq<Seq<char>>, available: usize)
    requires
        0 <= i < args.len(),
    ensures
        args[i].len() == 0 || args[i][0] != '-' ==> args_from(args, i, cli, tokens, available) == args_from(
            args,
            i + 1,
            CliView { files: cli.files.push(args[i]), ..cli },
            tokens,
            available,
        ),
        args[i] == "--"@ ==> args_from(args, i, cli, tokens, available) == Ok::<CliView, Seq<char>>(
            finished_args(CliView { files: cli.files + args.skip(i + 1), ..cli }, tokens.push(args[i]), available),
        ),
{
    let arg = args[i];
    lemma_kinds(arg);
    if arg.len() == 0 || arg[0] != '-' {
        lemma_step(arg, OptionKind::File);
    }
    if arg == "--"@ {
        lemma_step(arg, OptionKind::FilesFollow);
    }
}

/// What begins with digits behind a name begins with the name.
proof fn lemma_numbered_prefix(arg: Seq<char>)
    ensures
        is_numbered(arg, "-R"@) ==> has_prefix(arg, "-R"@),
        is_numbered(arg, "-o"@) ==> has_prefix(arg, "-o"@),
        is_numbered(arg, "-mt"@) ==> has_prefix(arg, "-mt"@),
{
}

/// An option that does not exist is noted, and does nothing.
pub proof fn law_unknown_options(args: Seq<Seq<char>>, i: int, cli: CliView, tokens: Seq<Seq<char>>, available: usize)
    requires
        0 <= i < args.len(),
        args[i].len() >= 1,
        args[i][0] == '-',
        args[i].len() >= 2 ==> {
            let c = args[i][1];
            c != 'h' && c != '-' && c != 'e' && c != 'o' && c != 'd' && c != 'R' && c != 'f' && c != 'm'
                && c != 'z' && c
                != 'b' && c != 'k' && c != 's' && c != 'q' && c != 'n'
        },
    ensures
        args_from(args, i, cli, tokens, available) == args_from(args, i + 1, cli, tokens.push(args[i]), available),
{
    reveal(option_step);
    lemma_all_names(args[i]);
    lemma_numbered_prefix(args[i]);
}

/// The list with more values behind it.
pub open spec fn with_more<T>(list: Option<Seq<T>>, more: Seq<T>) -> Option<Seq<T>> {
    match list {
        Some(l) => Some(l + more),
        None => Some(more),
    }
}

/// The options with lists: values behind the option, or in the next
/// argument, are put behind those that were given before.
pub proof fn law_lists(
    args: Seq<Seq<char>>,
    i: int,
    cli: CliView,
    tokens: Seq<Seq<char>>,
    available: usize,
    v: Seq<char>,
)
    requires
        0 <= i < args.len(),
        v.len() > 0,
    ensures
        ({
            let n = list_numbers(v);
            let r = args_from(args, i, cli, tokens, available);
            let noted = tokens.push(args[i]);
            let c = CliView { zc: with_more(cli.zc, n), ..cli };
            let m = CliView { zm: with_more(cli.zm, n), ..cli };
            let s = CliView { zs: with_more(cli.zs, n), ..cli };
            let follows = i + 1 < args.len() && args[i + 1] == v;
            &&& args[i] == "-zc"@ + v ==> r == args_from(args, i + 1, c, noted, available)
            &&& args[i] == "-zm"@ + v ==> r == args_from(args, i + 1, m, noted, available)
            &&& args[i] == "-zs"@ + v ==> r == args_from(args, i + 1, s, noted, available)
            &&& args[i] == "-zc"@ && follows ==> r == args_from(args, i + 2, c, noted.push(v), available)
            &&& args[i] == "-zm"@ && follows ==> r == args_from(args, i + 2, m, noted.push(v), available)
            &&& args[i] == "-zs"@ && follows ==> r == args_from(args, i + 2, s, noted.push(v), available)
        }),
{
    let arg = args[i];
    lemma_kinds(arg);
    lemma_list_kinds(arg, v);
    if arg == "-zc"@ + v || arg == "-zc"@ {
        lemma_step(arg, OptionKind::Compression);
    }
    if arg == "-zm"@ + v || arg == "-zm"@ {
        lemma_step(arg, OptionKind::Memory);
    }
    if arg == "-zs"@ + v || arg == "-zs"@ {
        lemma_step(arg, OptionKind::Strategy);
    }
}

proof fn lemma_behind(arg: Seq<char>, name: Seq<char>, v: Seq<char>)
    ensures
        arg == name + v ==> arg.skip(name.len() as int) == v && arg.len() == name.len() + v.len() && forall|i: int|
            0 <= i < name.len() ==> #[trigger] arg[i] == name[i],
{
    if arg == name + v {
        assert(arg.skip(name.len() as int) =~= v);
    }
}

/// The option with a list of filters. Those with a name of their own that
/// begins in the same way are told apart from it.
pub proof fn law_filters(
    args: Seq<Seq<char>>,
    i: int,
    cli: CliView,
    tokens: Seq<Seq<char>>,
    available: usize,
    v: Seq<char>,
)
    requires
        0 <= i < args.len(),
        v.len() > 0,
        v[0] != 't' && v[0] != 'o',
    ensures
        ({
            let r = args_from(args, i, cli, tokens, available);
            let noted = tokens.push(args[i]);
            let c = CliView { f: with_more(cli.f, byte_numbers(list_numbers(v))), ..cli };
            &&& args[i] == "-f"@ + v ==> r == args_from(args, i + 1, c, noted, available)
            &&& args[i] == "-f"@ && i + 1 < args.len() && args[i + 1] == v ==> r == args_from(
                args,
                i + 2,
                c,
                noted.push(v),
                available,
            )
        }),
{
    let arg = args[i];
    lemma_kinds(arg);
    lemma_list_kinds(arg, v);
    if arg == "-f"@ + v || arg == "-f"@ {
        lemma_step(arg, OptionKind::Filter);
    }
}

/// The encoder is 1 or 2; a list or a range is refused with one message, and
/// anything else with another.
pub proof fn law_encoder(
    args: Seq<Seq<char>>,
    i: int,
    cli: CliView,
    tokens: Seq<Seq<char>>,
    available: usize,
    v: Seq<char>,
)
    requires
        0 <= i < args.len(),
        are_digits(v) || is_no_number(v) || v.contains(',') || v.contains('-'),
        args[i] == "-zi"@ + v && v.len() > 0 || args[i] == "-zi"@ && i + 1 < args.len() && args[i + 1] == v,
    ensures
        ({
            let r = args_from(args, i, cli, tokens, available);
            let is_apart = args[i] == "-zi"@;
            let noted = if is_apart { tokens.push(args[i]).push(v) } else { tokens.push(args[i]) };
            let next = if is_apart { i + 2 } else { i + 1 };
            if v.contains(',') || v.contains('-') {
                r == Err::<CliView, Seq<char>>(
                    "Error: Options like -zi1,2 or -zi1-2 are not allowed. Select either -zi1 or -zi2."@,
                )
            } else if are_digits(v) && (worth(v) == 1 || worth(v) == 2) {
                r == args_from(args, next, CliView { zi: worth(v) as u8, ..cli }, noted, available)
            } else {
                r == Err::<CliView, Seq<char>>(
                    "Error: Invalid value for -zi. Supported values are 1 (zlib) or 2 (Zöpfli)."@,
                )
            }
        }),
{
    lemma_encoder_kind(args[i], v);
    lemma_step(args[i], OptionKind::Implementation);
    if are_digits(v) {
        lemma_read_digits(v, 255);
    } else if is_no_number(v) {
        lemma_no_number(v, 255);
    }
}

proof fn lemma_encoder_kind(arg: Seq<char>, v: Seq<char>)
    requires
        arg == "-zi"@ + v || arg == "-zi"@,
    ensures
        is_of_kind(arg, OptionKind::Implementation),
        "-zi"@.len() == 3,
        arg == "-zi"@ + v ==> arg.skip(3) == v && arg.len() == 3 + v.len(),
        v.len() == 0 ==> !v.contains(',') && !v.contains('-'),
{
    reveal(is_of_kind);
    lemma_names();
    lemma_all_names(arg);
    lemma_numbered_prefix(arg);
    lemma_behind(arg, "-zi"@, v);
    if arg == "-zi"@ + v {
        assert(arg[0] == '-' && arg[1] == 'z' && arg[2] == 'i');
    }
}

/// The list runs upwards, and holds the values of the other list and no
/// others.
pub open spec fn is_sorted_i32(sorted: Seq<i32>, list: Seq<i32>) -> bool {
    &&& forall|i: int, j: int| 0 <= i < j < sorted.len() ==> sorted[i] < sorted[j]
    &&& forall|x: i32| #[trigger] sorted.contains(x) <==> list.contains(x)
}

pub open spec fn is_sorted_u8(sorted: Seq<u8>, list: Seq<u8>) -> bool {
    &&& forall|i: int, j: int| 0 <= i < j < sorted.len() ==> sorted[i] < sorted[j]
    &&& forall|x: u8| #[trigger] sorted.contains(x) <==> list.contains(x)
}

proof fn lemma_sorted_i32(list: Seq<i32>)
    ensures
        is_sorted_i32(ascending(ints_i32(list)).map_values(|v: int| v as i32), list),
{
    let ints = ints_i32(list);
    let up = ascending(ints);
    let sorted = up.map_values(|v: int| v as i32);
    law_lists_are_ascending(ints);
    assert forall|k: int| 0 <= k < up.len() implies i32::MIN <= #[trigger] up[k] <= i32::MAX by {
        assert(up.contains(up[k]));
        let m = choose|m: int| 0 <= m < ints.len() && ints[m] == up[k];
        assert(ints[m] == list[m]);
    }
    assert forall|x: i32| #[trigger] sorted.contains(x) <==> list.contains(x) by {
        if sorted.contains(x) {
            let k = choose|k: int| 0 <= k < sorted.len() && sorted[k] == x;
            assert(up.contains(up[k]));
            let m = choose|m: int| 0 <= m < ints.len() && ints[m] == up[k];
            assert(list[m] == x);
        }
        if list.contains(x) {
            let m = choose|m: int| 0 <= m < list.len() && list[m] == x;
            assert(ints[m] == x as int);
            assert(up.contains(x as int));
            let k = choose|k: int| 0 <= k < up.len() && up[k] == x as int;
            assert(sorted[k] == x);
        }
    }
}

proof fn lemma_sorted_u8(list: Seq<u8>)
    ensures
        is_sorted_u8(ascending(ints_u8(list)).map_values(|v: int| v as u8), list),
{
    let ints = ints_u8(list);
    let up = ascending(ints);
    let sorted = up.map_values(|v: int| v as u8);
    law_lists_are_ascending(ints);
    assert forall|k: int| 0 <= k < up.len() implies 0 <= #[trigger] up[k] <= 255 by {
        assert(up.contains(up[k]));
        let m = choose|m: int| 0 <= m < ints.len() && ints[m] == up[k];
        assert(ints[m] == list[m]);
    }
    assert forall|x: u8| #[trigger] sorted.contains(x) <==> list.contains(x) by {
        if sorted.contains(x) {
            let k = choose|k: int| 0 <= k < sorted.len() && sorted[k] == x;
            assert(up.contains(up[k]));
            let m = choose|m: int| 0 <= m < ints.len() && ints[m] == up[k];
            assert(list[m] == x);
        }
        if list.contains(x) {
            let m = choose|m: int| 0 <= m < list.len() && list[m] == x;
            assert(ints[m] == x as int);
            assert(up.contains(x as int));
            let k = choose|k: int| 0 <= k < up.len() && up[k] == x as int;
            assert(sorted[k] == x);
        }
    }
}

/// What is done when all arguments have been read: level 0 switches off
/// reductions and recoding, lists are sorted, the number of threads is three
/// quarters of the processors unless it was given, and at least 1; and the
/// options are put together with a space between each two. Nothing else
/// changes.
pub proof fn law_when_all_is_read(
    args: Seq<Seq<char>>,
    i: int,
    cli: CliView,
    tokens: Seq<Seq<char>>,
    available: usize,
    last: Seq<char>,
)
    requires
        i >= args.len(),
    ensures
        args_from(args, i, cli, tokens, available) is Ok,
        ({
            let r = args_from(args, i, cli, tokens, available)->Ok_0;
            let more = args_from(args, i, cli, tokens.push(last), available)->Ok_0;
            &&& r == (CliView {
                zc: r.zc,
                zm: r.zm,
                zs: r.zs,
                f: r.f,
                nx: cli.nx || cli.opt_level == 0,
                nz: cli.nz || cli.opt_level == 0,
                mt: r.mt,
                cmd_options: r.cmd_options,
                ..cli
            })
            &&& match (cli.zc, r.zc) {
                (Some(l), Some(s)) => is_sorted_i32(s, l),
                (l, s) => l is None && s is None,
            }
            &&& match (cli.zm, r.zm) {
                (Some(l), Some(s)) => is_sorted_i32(s, l),
                (l, s) => l is None && s is None,
            }
            &&& match (cli.zs, r.zs) {
                (Some(l), Some(s)) => is_sorted_i32(s, l),
                (l, s) => l is None && s is None,
            }
            &&& match (cli.f, r.f) {
                (Some(l), Some(s)) => is_sorted_u8(s, l),
                (l, s) => l is None && s is None,
            }
            &&& cli.mt > 0 ==> r.mt == cli.mt
            &&& cli.mt == 0 && available >= 2 ==> 4 * r.mt <= 3 * available < 4 * r.mt + 4
            &&& cli.mt == 0 && available < 2 ==> r.mt == 1
            &&& tokens.len() == 0 ==> r.cmd_options.len() == 0 && more.cmd_options == last
            &&& tokens.len() > 0 ==> more.cmd_options == r.cmd_options + seq![' '] + last
        }),
{
    if let Some(l) = cli.zc {
        lemma_sorted_i32(l);
    }
    if let Some(l) = cli.zm {
        lemma_sorted_i32(l);
    }
    if let Some(l) = cli.zs {
        lemma_sorted_i32(l);
    }
    if let Some(l) = cli.f {
        lemma_sorted_u8(l);
    }
    reveal_strlit(" ");
    assert(" "@ =~= seq![' ']);
    assert(tokens.push(last).drop_last() =~= tokens);
    if tokens.len() == 0 {
        assert(tokens.push(last)[0] == last);
    }
}

/// Reading starts with the first argument, at level 2 with zlib, and with
/// nothing else set.
pub proof fn law_where_reading_starts(args: Seq<Seq<char>>, available: usize)
    ensures
        read_args(args, available) == args_from(
            args,
            0,
            CliView {
                files: Seq::empty(),
                external_input: None,
                opt_level: 2,
                mt: 0,
                zi: 1,
                zc: None,
                zm: None,
                zs: None,
                f: None,
                backup: false,
                simulate: false,
                quiet: false,
                nc: false,
                nb: false,
                np: false,
                nx: false,
                nz: false,
                out_file: None,
                out_dir: None,
                recursive: false,
                max_depth: None,
                show_help: false,
                force_trials: false,
                force_reenc: false,
                cmd_options: Seq::empty(),
                usage_error: None,
            },
            Seq::empty(),
            available,
        ),
{
}

/// The values of two lists with a comma between them are those of the first
/// list and then those of the second.
pub proof fn law_lists_with_commas(a: Seq<char>, b: Seq<char>)
    requires
        !a.contains(','),
    ensures
        list_numbers(a + seq![','] + b) == list_numbers(a) + list_numbers(b),
{
    let s = a + seq![','] + b;
    lemma_find(s, ',');
    lemma_find(a, ',');
    let f = find(s, ',');
    assert(s[a.len() as int] == ',');
    assert(f == a.len()) by {
        if f < a.len() {
            assert(a[f] == s[f]);
            assert(a.contains(','));
        }
    }
    assert(s.take(f) =~= a);
    assert(s.skip(f + 1) =~= b);
    let rest = split_on(b, ',');
    assert(split_on(s, ',') == seq![a] + rest);
    assert((seq![a] + rest).skip(1) =~= rest);
    assert((seq![a] + rest)[0] == a);
    let g = find(a, ',');
    if g < a.len() {
        assert(a.contains(','));
    }
    assert(split_on(a, ',') == seq![a]);
    assert(seq![a].skip(1) =~= Seq::<Seq<char>>::empty());
    assert(parts_numbers(Seq::<Seq<char>>::empty()) =~= Seq::empty());
    assert(list_numbers(a) =~= part_numbers(a));
}

/// A number stands for itself, and two numbers with a dash between them stand
/// for all numbers from the first to the second, upwards.
pub proof fn law_numbers_and_ranges(a: Seq<char>, b: Seq<char>)
    requires
        are_digits(a),
        are_digits(b),
        worth(a) <= i32::MAX,
        worth(b) <= i32::MAX,
    ensures
        list_numbers(a) == seq![worth(a) as i32],
        ({
            let n = list_numbers(a + seq!['-'] + b);
            &&& n.len() == (if worth(a) <= worth(b) { worth(b) - worth(a) + 1 } else { 0 })
            &&& forall|k: int| 0 <= k < n.len() ==> #[trigger] n[k] == worth(a) + k
        }),
{
    lemma_read_digits(a, i32::MAX as int);
    lemma_read_digits(b, i32::MAX as int);
    assert(a[0] != '-' && b[0] != '-') by {
        assert('0' <= a[0] && '0' <= b[0]);
    }
    lemma_one_part(a);
    let s = a + seq!['-'] + b;
    assert(!s.contains(',')) by {
        if s.contains(',') {
            let k = choose|k: int| 0 <= k < s.len() && s[k] == ',';
            if k < a.len() {
                assert('0' <= a[k]);
            } else if k > a.len() {
                assert('0' <= b[k - a.len() - 1]);
            }
        }
    }
    assert(!a.contains(',')) by {
        if a.contains(',') {
            let k = choose|k: int| 0 <= k < a.len() && a[k] == ',';
            assert('0' <= a[k]);
        }
    }
    lemma_one_part(s);
    lemma_find(s, '-');
    let f = find(s, '-');
    assert(s[a.len() as int] == '-');
    assert(f == a.len()) by {
        if f < a.len() {
            assert('0' <= a[f] && a[f] == s[f]);
        }
    }
    assert(s.take(f) =~= a);
    assert(s.skip(f + 1) =~= b);
    lemma_find(a, '-');
    let g = find(a, '-');
    if g < a.len() {
        assert('0' <= a[g]);
    }
    assert(worth(a) >= 0 && worth(b) >= 0);
}

/// A list without commas is one part.
proof fn lemma_one_part(s: Seq<char>)
    ensures
        !s.contains(',') ==> list_numbers(s) == part_numbers(s),
{
    if !s.contains(',') {
        lemma_find(s, ',');
        let g = find(s, ',');
        if g < s.len() {
            assert(s.contains(','));
        }
        assert(split_on(s, ',') == seq![s]);
        assert(seq![s].skip(1) =~= Seq::<Seq<char>>::empty());
        assert(parts_numbers(Seq::<Seq<char>>::empty()) =~= Seq::empty());
        assert(list_numbers(s) =~= part_numbers(s));
    }
}

/// Of the numbers for filters, those that fit into a byte are taken, in their
/// order.
pub proof fn law_filters_fit_into_bytes(s: Seq<i32>, x: i32)
    ensures
        byte_numbers(s.push(x)) == (if 0 <= x <= 255 { byte_numbers(s).push(x as u8) } else { byte_numbers(s) }),
        byte_numbers(Seq::empty()) == Seq::<u8>::empty(),
{
    assert(s.push(x).drop_last() =~= s);
}

/// A part of a list that holds anything but digits and signs stands for
/// nothing, and so does a number that does not fit into 32 bits, or that has a
/// dash in front.
pub proof fn law_other_parts_of_lists(s: Seq<char>, i: int)
    requires
        !s.contains(','),
        0 <= i < s.len(),
    ensures
        !('0' <= s[i] && s[i] <= '9') && s[i] != '-' && s[i] != '+' ==> list_numbers(s) == Seq::<i32>::empty(),
        are_digits(s) && worth(s) > i32::MAX ==> list_numbers(s) == Seq::<i32>::empty(),
        s[0] == '-' ==> list_numbers(s) == Seq::<i32>::empty(),
{
    lemma_one_part(s);
    lemma_find(s, '-');
    let f = find(s, '-');
    if s[0] == '-' {
        assert(f == 0);
        assert(s.take(0) =~= Seq::empty());
    }
    if are_digits(s) {
        lemma_read_digits(s, i32::MAX as int);
        assert('0' <= s[0]);
        if f < s.len() {
            assert('0' <= s[f]);
        }
    }
    if !('0' <= s[i] && s[i] <= '9') && s[i] != '-' && s[i] != '+' {
        lemma_bad_number(s, i);
        if f < s.len() {
            if i < f {
                assert(s.take(f)[i] == s[i]);
                lemma_bad_number(s.take(f), i);
            } else {
                assert(i > f);
                assert(s.skip(f + 1)[i - f - 1] == s[i]);
                lemma_bad_number(s.skip(f + 1), i - f - 1);
            }
        }
    }
}

/// A text with anything but digits and signs in it is no number.
proof fn lemma_bad_number(s: Seq<char>, i: int)
    requires
        0 <= i < s.len(),
        !('0' <= s[i] && s[i] <= '9'),
        s[i] != '-' && s[i] != '+',
    ensures
        parse_signed(s) is None,
{
    assert(!is_digit(s[i]));
    if i > 0 {
        assert(s.skip(1)[i - 1] == s[i]);
        assert(!is_digit(s.skip(1)[i - 1]));
    }
}

}
