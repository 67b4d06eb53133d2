//! What each option of the command line asks for.
use vstd::prelude::*;
use vstd::string::*;
use crate::cli;
use crate::cli::{ActionModel, ArgsModel};
use crate::text;

verus! {

proof fn lemma_literals()
    ensures
        "-o"@ == seq!['-', 'o'],
        "-e"@ == seq!['-', 'e'],
        "-l"@ == seq!['-', 'l'],
        "-L"@ == seq!['-', 'L'],
        "-m"@ == seq!['-', 'm'],
        "-v"@ == seq!['-', 'v'],
        "-h"@ == seq!['-', 'h'],
        "-B"@ == seq!['-', 'B'],
        "-F"@ == seq!['-', 'F'],
        "-"@ == seq!['-'],
        "--output"@.len() == 8 && "--output"@[1] == '-' && "--output"@[2] == 'o',
        "--entry"@.len() == 7 && "--entry"@[1] == '-' && "--entry"@[2] == 'e',
        "--target"@.len() == 8 && "--target"@[1] == '-' && "--target"@[2] == 't',
        "--verbose"@.len() == 9 && "--verbose"@[1] == '-' && "--verbose"@[5] == 'b',
        "--version"@.len() == 9 && "--version"@[1] == '-' && "--version"@[5] == 's',
        "--help"@.len() == 6 && "--help"@[1] == '-' && "--help"@[2] == 'h',
        "--dynamic-linker"@.len() == 16 && "--dynamic-linker"@[1] == '-',
{
    reveal_strlit("-o");
    reveal_strlit("-e");
    reveal_strlit("-l");
    reveal_strlit("-L");
    reveal_strlit("-m");
    reveal_strlit("-v");
    reveal_strlit("-h");
    reveal_strlit("-B");
    reveal_strlit("-F");
    reveal_strlit("-");
    reveal_strlit("--output");
    reveal_strlit("--entry");
    reveal_strlit("--target");
    reveal_strlit("--verbose");
    reveal_strlit("--version");
    reveal_strlit("--help");
    reveal_strlit("--dynamic-linker");
    assert("-o"@ =~= seq!['-', 'o']);
    assert("-e"@ =~= seq!['-', 'e']);
    assert("-l"@ =~= seq!['-', 'l']);
    assert("-L"@ =~= seq!['-', 'L']);
    assert("-m"@ =~= seq!['-', 'm']);
    assert("-v"@ =~= seq!['-', 'v']);
    assert("-h"@ =~= seq!['-', 'h']);
    assert("-B"@ =~= seq!['-', 'B']);
    assert("-F"@ =~= seq!['-', 'F']);
    assert("-"@ =~= seq!['-']);
}

/// The flags with a value of no interest, and those of no interest, by their letters.
proof fn lemma_long_flags()
    ensures
        "-lto_library"@.len() == 12 && "-lto_library"@[1] == 'l',
        "-framework"@.len() == 10 && "-framework"@[1] == 'f',
        "-weak_framework"@.len() == 15 && "-weak_framework"@[1] == 'w',
        "-syslibroot"@.len() == 11 && "-syslibroot"@[1] == 's',
        "-mllvm"@.len() == 6 && "-mllvm"@[1] == 'm',
        "-exported_symbols_list"@.len() == 22 && "-exported_symbols_list"@[1] == 'e',
        "-install_name"@.len() == 13 && "-install_name"@[1] == 'i',
        "-arch"@.len() == 5 && "-arch"@[1] == 'a',
        "-filelist"@.len() == 9 && "-filelist"@[1] == 'f',
        "-object_path_lto"@.len() == 16 && "-object_path_lto"@[1] == 'o',
        "-platform_version"@.len() == 17 && "-platform_version"@[1] == 'p',
        "-demangle"@.len() == 9 && "-demangle"@[1] == 'd',
        "-no_deduplicate"@.len() == 15 && "-no_deduplicate"@[1] == 'n',
        "-dynamic"@.len() == 8 && "-dynamic"@[1] == 'd',
        "-dead_strip"@.len() == 11 && "-dead_strip"@[1] == 'd',
{
    reveal_strlit("-lto_library");
    reveal_strlit("-framework");
    reveal_strlit("-weak_framework");
    reveal_strlit("-syslibroot");
    reveal_strlit("-mllvm");
    reveal_strlit("-exported_symbols_list");
    reveal_strlit("-install_name");
    reveal_strlit("-arch");
    reveal_strlit("-filelist");
    reveal_strlit("-object_path_lto");
    reveal_strlit("-platform_version");
    reveal_strlit("-demangle");
    reveal_strlit("-no_deduplicate");
    reveal_strlit("-dynamic");
    reveal_strlit("-dead_strip");
}

proof fn lemma_is_prefix(a: char, s: Seq<char>)
    requires
        s.len() >= 2,
    ensures
        text::is_prefix(seq!['-', a], s) <==> s[0] == '-' && s[1] == a,
{
    let p = seq!['-', a];
    assert(s.subrange(0, 2)[0] == s[0] && s.subrange(0, 2)[1] == s[1]);
    if s[0] == '-' && s[1] == a {
        assert(s.subrange(0, 2) =~= p);
    }
}

/// The option `-o` or `--output` names the output file, `-e` or `--entry` the entry point, `-l` a
/// library, `-m` the emulation, `--dynamic-linker` the dynamic linker, `--target` the operating
/// system and `-L` a directory with libraries: the argument behind it is the value, and nothing
/// else changes. Each is refused where it is the last argument.
pub proof fn law_options_have_values(argv: Seq<Seq<char>>, i: nat, a: ArgsModel)
    requires
        i < argv.len(),
    ensures
        ({
            let f = argv[i as int];
            let v = argv[i as int + 1];
            let r = cli::parse_from(argv, i, a);
            let more = i + 1 < argv.len();
            &&& (f == "-o"@ || f == "--output"@) && more ==> r == cli::parse_from(
                argv,
                i + 2,
                ArgsModel { output_file: Some(v), ..a },
            )
            &&& (f == "-e"@ || f == "--entry"@) && more ==> r == cli::parse_from(
                argv,
                i + 2,
                ArgsModel { entry: Some(v), ..a },
            )
            &&& f == "-l"@ && more ==> r == cli::parse_from(
                argv,
                i + 2,
                ArgsModel { libraries: a.libraries.push(v), ..a },
            )
            &&& f == "-m"@ && more ==> r == cli::parse_from(
                argv,
                i + 2,
                ArgsModel { emulation: Some(v), ..a },
            )
            &&& f == "--dynamic-linker"@ && more ==> r == cli::parse_from(
                argv,
                i + 2,
                ArgsModel { dynamic_linker: Some(v), ..a },
            )
            &&& f == "--target"@ && more ==> r == cli::parse_from(
                argv,
                i + 2,
                ArgsModel { target_os: Some(v), ..a },
            )
            &&& f == "-L"@ && more ==> r == cli::parse_from(
                argv,
                i + 2,
                ArgsModel { search_paths: a.search_paths.push(v), ..a },
            )
            &&& (f == "-o"@ || f == "--output"@ || f == "-e"@ || f == "--entry"@ || f == "-l"@ || f
                == "-m"@ || f == "--dynamic-linker"@ || f == "--target"@ || f == "-L"@) && !more
                ==> r is Err
        }),
{
    let f = argv[i as int];
    lemma_literals();
    lemma_long_flags();
    if f.len() >= 2 {
        lemma_is_prefix('l', f);
        lemma_is_prefix('L', f);
    }
}

/// `-v` or `--verbose` asks for more messages, `-h` or `--help` for help and `--version` for the
/// version. `-l` and `-L` may have their value in the same argument.
pub proof fn law_options_stand_alone(argv: Seq<Seq<char>>, i: nat, a: ArgsModel)
    requires
        i < argv.len(),
    ensures
        ({
            let f = argv[i as int];
            let r = cli::parse_from(argv, i, a);
            let value = f.subrange(2, f.len() as int);
            &&& f == "-v"@ || f == "--verbose"@ ==> r == cli::parse_from(
                argv,
                i + 1,
                ArgsModel { verbose: true, ..a },
            )
            &&& f == "-h"@ || f == "--help"@ ==> r == Ok::<ActionModel, Seq<char>>(
                ActionModel::Help,
            )
            &&& f == "--version"@ ==> r == Ok::<ActionModel, Seq<char>>(ActionModel::Version)
            &&& f.len() > 2 && f[0] == '-' && f[1] == 'l' && f != "-lto_library"@ ==> r
                == cli::parse_from(
                argv,
                i + 1,
                ArgsModel { libraries: a.libraries.push(value), ..a },
            )
            &&& f.len() > 2 && f[0] == '-' && f[1] == 'L' ==> r == cli::parse_from(
                argv,
                i + 1,
                ArgsModel { search_paths: a.search_paths.push(value), ..a },
            )
        }),
{
    let f = argv[i as int];
    lemma_literals();
    lemma_long_flags();
    if f.len() >= 2 {
        lemma_is_prefix('l', f);
        lemma_is_prefix('L', f);
    }
}

} // verus!
