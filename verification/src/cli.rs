//! The command line.
//!
//! Besides its own options the linker takes the flags that compilers hand to a
//! linker. Flags that it does not know are ignored; everything that is no flag
//! is an input file.
use vstd::prelude::*;
use vstd::string::*;
use crate::model;
use crate::text;
use crate::text::{join2, starts_with, str_eq, text_from};

verus! {

/// What the command line asks for.
#[derive(Debug)]
pub struct ParsedArgs {
    pub output_file: Option<String>,
    pub entry: Option<String>,
    pub libraries: Vec<String>,
    pub emulation: Option<String>,
    pub dynamic_linker: Option<String>,
    pub target_os: Option<String>,
    pub search_paths: Vec<String>,
    pub verbose: bool,
    pub input_files: Vec<String>,
}

/// The view of what the command line asks for.
pub struct ArgsModel {
    pub output_file: Option<Seq<char>>,
    pub entry: Option<Seq<char>>,
    pub libraries: Seq<Seq<char>>,
    pub emulation: Option<Seq<char>>,
    pub dynamic_linker: Option<Seq<char>>,
    pub target_os: Option<Seq<char>>,
    pub search_paths: Seq<Seq<char>>,
    pub verbose: bool,
    pub input_files: Seq<Seq<char>>,
}

impl View for ParsedArgs {
    type V = ArgsModel;

    open spec fn view(&self) -> ArgsModel {
        ArgsModel {
            output_file: model::view_opt(self.output_file),
            entry: model::view_opt(self.entry),
            libraries: model::views(self.libraries@),
            emulation: model::view_opt(self.emulation),
            dynamic_linker: model::view_opt(self.dynamic_linker),
            target_os: model::view_opt(self.target_os),
            search_paths: model::views(self.search_paths@),
            verbose: self.verbose,
            input_files: model::views(self.input_files@),
        }
    }
}

/// Nothing asked for.
pub open spec fn no_args() -> ArgsModel {
    ArgsModel {
        output_file: None,
        entry: None,
        libraries: seq![],
        emulation: None,
        dynamic_linker: None,
        target_os: None,
        search_paths: seq![],
        verbose: false,
        input_files: seq![],
    }
}

impl Default for ParsedArgs {
    fn default() -> (r: Self)
        ensures
            r@ == no_args(),
    {
        broadcast use model::group_views;
        ParsedArgs {
            output_file: None,
            entry: None,
            libraries: Vec::new(),
            emulation: None,
            dynamic_linker: None,
            target_os: None,
            search_paths: Vec::new(),
            verbose: false,
            input_files: Vec::new(),
        }
    }
}

/// What to do.
#[derive(Debug)]
pub enum ParseAction {
    Run(ParsedArgs),
    Help,
    Version,
}

/// The view of what to do.
pub enum ActionModel {
    Run(ArgsModel),
    Help,
    Version,
}

impl View for ParseAction {
    type V = ActionModel;

    open spec fn view(&self) -> ActionModel {
        match self {
            ParseAction::Run(a) => ActionModel::Run(a@),
            ParseAction::Help => ActionModel::Help,
            ParseAction::Version => ActionModel::Version,
        }
    }
}

/// What an argument is.
#[derive(Debug, Clone, Copy, PartialEq, Eq, Structural)]
pub enum ArgKind {
    /// `-o`, with the output file behind it.
    Output,
    /// `-e`, with the entry point behind it.
    Entry,
    /// A flag whose value is of no interest.
    SkipOne,
    /// A flag with three values of no interest.
    SkipThree,
    /// A flag of no interest.
    Ignored,
    /// `-l`, with the library behind it.
    Library,
    /// `-l` and the library in one.
    JoinedLibrary,
    /// `-m`, with the emulation behind it.
    Emulation,
    /// `--dynamic-linker`, with its path behind it.
    DynamicLinker,
    /// `--target`, with the operating system behind it.
    Target,
    Verbose,
    Help,
    Version,
    /// `-L`, with the directory behind it.
    SearchPath,
    /// `-L` and the directory in one.
    JoinedSearchPath,
    /// An input file.
    Input,
}

/// Whether a flag has one value of no interest.
pub open spec fn skips_value(s: Seq<char>) -> bool {
    s == "-lto_library"@ || s == "-framework"@ || s == "-weak_framework"@ || s == "-syslibroot"@
        || s
        == "-mllvm"@ || s == "-exported_symbols_list"@ || s == "-install_name"@ || s == "-B"@ || s
        == "-F"@ || s == "-arch"@ || s == "-filelist"@ || s == "-object_path_lto"@
}

/// What an argument is.
pub open spec fn kind_of(s: Seq<char>) -> ArgKind {
    if s == "-o"@ || s == "--output"@ {
        ArgKind::Output
    } else if s == "-e"@ || s == "--entry"@ {
        ArgKind::Entry
    } else if skips_value(s) {
        ArgKind::SkipOne
    } else if s == "-platform_version"@ {
        ArgKind::SkipThree
    } else if s == "-demangle"@ || s == "-no_deduplicate"@ || s == "-dynamic"@ || s
        == "-dead_strip"@ {
        ArgKind::Ignored
    } else if s == "-l"@ {
        ArgKind::Library
    } else if text::is_prefix("-l"@, s) {
        ArgKind::JoinedLibrary
    } else if s == "-m"@ {
        ArgKind::Emulation
    } else if s == "--dynamic-linker"@ {
        ArgKind::DynamicLinker
    } else if s == "--target"@ {
        ArgKind::Target
    } else if s == "-v"@ || s == "--verbose"@ {
        ArgKind::Verbose
    } else if s == "-h"@ || s == "--help"@ {
        ArgKind::Help
    } else if s == "--version"@ {
        ArgKind::Version
    } else if s == "-L"@ {
        ArgKind::SearchPath
    } else if text::is_prefix("-L"@, s) {
        ArgKind::JoinedSearchPath
    } else if text::is_prefix("-"@, s) {
        ArgKind::Ignored
    } else {
        ArgKind::Input
    }
}

fn has_skipped_value(s: &str) -> (r: bool)
    ensures
        r == skips_value(s@),
{
    str_eq(s, "-lto_library") || str_eq(s, "-framework") || str_eq(s, "-weak_framework") || str_eq(
        s,
        "-syslibroot",
    ) || str_eq(s, "-mllvm") || str_eq(s, "-exported_symbols_list") || str_eq(s, "-install_name")
        || str_eq(s, "-B") || str_eq(s, "-F") || str_eq(s, "-arch") || str_eq(s, "-filelist")
        || str_eq(s, "-object_path_lto")
}

/// What an argument is.
pub fn classify(s: &str) -> (r: ArgKind)
    ensures
        r == kind_of(s@),
{
    if str_eq(s, "-o") || str_eq(s, "--output") {
        ArgKind::Output
    } else if str_eq(s, "-e") || str_eq(s, "--entry") {
        ArgKind::Entry
    } else if has_skipped_value(s) {
        ArgKind::SkipOne
    } else if str_eq(s, "-platform_version") {
        ArgKind::SkipThree
    } else if str_eq(s, "-demangle") || str_eq(s, "-no_deduplicate") || str_eq(s, "-dynamic")
        || str_eq(s, "-dead_strip") {
        ArgKind::Ignored
    } else if str_eq(s, "-l") {
        ArgKind::Library
    } else if starts_with(s, "-l") {
        ArgKind::JoinedLibrary
    } else if str_eq(s, "-m") {
        ArgKind::Emulation
    } else if str_eq(s, "--dynamic-linker") {
        ArgKind::DynamicLinker
    } else if str_eq(s, "--target") {
        ArgKind::Target
    } else if str_eq(s, "-v") || str_eq(s, "--verbose") {
        ArgKind::Verbose
    } else if str_eq(s, "-h") || str_eq(s, "--help") {
        ArgKind::Help
    } else if str_eq(s, "--version") {
        ArgKind::Version
    } else if str_eq(s, "-L") {
        ArgKind::SearchPath
    } else if starts_with(s, "-L") {
        ArgKind::JoinedSearchPath
    } else if starts_with(s, "-") {
        ArgKind::Ignored
    } else {
        ArgKind::Input
    }
}

/// The flag that a message about a missing value names.
pub open spec fn flag_name(k: ArgKind) -> Seq<char> {
    match k {
        ArgKind::Output => "-o"@,
        ArgKind::Entry => "-e"@,
        ArgKind::Library => "-l"@,
        ArgKind::Emulation => "-m"@,
        ArgKind::DynamicLinker => "--dynamic-linker"@,
        ArgKind::Target => "--target"@,
        _ => "-L"@,
    }
}

/// Whether an argument takes the next one as its value.
pub open spec fn takes_value(k: ArgKind) -> bool {
    match k {
        ArgKind::Output => true,
        ArgKind::Entry => true,
        ArgKind::Library => true,
        ArgKind::Emulation => true,
        ArgKind::DynamicLinker => true,
        ArgKind::Target => true,
        ArgKind::SearchPath => true,
        _ => false,
    }
}

/// `a` with a value of the given kind.
pub open spec fn with_value(a: ArgsModel, k: ArgKind, v: Seq<char>) -> ArgsModel {
    match k {
        ArgKind::Output => ArgsModel { output_file: Some(v), ..a },
        ArgKind::Entry => ArgsModel { entry: Some(v), ..a },
        ArgKind::Library => ArgsModel { libraries: a.libraries.push(v), ..a },
        ArgKind::Emulation => ArgsModel { emulation: Some(v), ..a },
        ArgKind::DynamicLinker => ArgsModel { dynamic_linker: Some(v), ..a },
        ArgKind::Target => ArgsModel { target_os: Some(v), ..a },
        _ => ArgsModel { search_paths: a.search_paths.push(v), ..a },
    }
}

/// `a` with an argument that stands alone.
pub open spec fn with_flag(a: ArgsModel, k: ArgKind, s: Seq<char>) -> ArgsModel {
    match k {
        ArgKind::JoinedLibrary => ArgsModel {
            libraries: a.libraries.push(s.subrange(2, s.len() as int)),
            ..a
        },
        ArgKind::JoinedSearchPath => ArgsModel {
            search_paths: a.search_paths.push(s.subrange(2, s.len() as int)),
            ..a
        },
        ArgKind::Verbose => ArgsModel { verbose: true, ..a },
        ArgKind::Input => ArgsModel { input_files: a.input_files.push(s), ..a },
        _ => a,
    }
}

/// The position `count` behind `i`, or the end.
pub open spec fn skipped(n: nat, i: nat, count: nat) -> nat {
    if i + count <= n {
        i + count
    } else {
        n
    }
}

/// What the arguments from `i` on, after those in `a`, ask for.
pub open spec fn parse_from(argv: Seq<Seq<char>>, i: nat, a: ArgsModel) -> Result<
    ActionModel,
    Seq<char>,
>
    decreases argv.len() - i,
{
    if i >= argv.len() {
        Ok(ActionModel::Run(a))
    } else {
        let s = argv[i as int];
        let k = kind_of(s);
        if k == ArgKind::Help {
            Ok(ActionModel::Help)
        } else if k == ArgKind::Version {
            Ok(ActionModel::Version)
        } else if takes_value(k) {
            if i + 1 < argv.len() {
                parse_from(argv, i + 2, with_value(a, k, argv[i as int + 1]))
            } else {
                Err("Missing argument for "@ + flag_name(k))
            }
        } else if k == ArgKind::SkipOne {
            parse_from(argv, skipped(argv.len(), i + 1, 1), a)
        } else if k == ArgKind::SkipThree {
            parse_from(argv, skipped(argv.len(), i + 1, 3), a)
        } else {
            parse_from(argv, i + 1, with_flag(a, k, s))
        }
    }
}

fn skip_args(argv: &[String], i: usize, count: usize) -> (r: usize)
    requires
        i <= argv@.len(),
    ensures
        r == skipped(argv@.len(), i as nat, count as nat),
{
    let remaining: usize = argv.len() - i;
    if count <= remaining {
        i + count
    } else {
        argv.len()
    }
}

fn take_required_arg(argv: &[String], i: usize, flag: &str) -> (r: Result<String, String>)
    ensures
        i < argv@.len() ==> r is Ok && r->Ok_0@ == argv@[i as int]@,
        i >= argv@.len() ==> r is Err && r->Err_0@ == "Missing argument for "@ + flag@,
{
    if i < argv.len() {
        Ok(argv[i].clone())
    } else {
        Err(join2("Missing argument for ", flag))
    }
}

fn set_value(args: &mut ParsedArgs, k: ArgKind, v: String)
    ensures
        final(args)@ == with_value(old(args)@, k, v@),
{
    broadcast use model::group_views;
    match k {
        ArgKind::Output => {
            args.output_file = Some(v);
        },
        ArgKind::Entry => {
            args.entry = Some(v);
        },
        ArgKind::Library => {
            args.libraries.push(v);
        },
        ArgKind::Emulation => {
            args.emulation = Some(v);
        },
        ArgKind::DynamicLinker => {
            args.dynamic_linker = Some(v);
        },
        ArgKind::Target => {
            args.target_os = Some(v);
        },
        _ => {
            args.search_paths.push(v);
        },
    }
}

fn set_flag(args: &mut ParsedArgs, k: ArgKind, s: &str)
    requires
        k == kind_of(s@),
    ensures
        final(args)@ == with_flag(old(args)@, k, s@),
{
    broadcast use model::group_views;
    proof {
        reveal_strlit("-l");
        reveal_strlit("-L");
    }
    match k {
        ArgKind::JoinedLibrary => {
            args.libraries.push(text_from(s, 2));
        },
        ArgKind::JoinedSearchPath => {
            args.search_paths.push(text_from(s, 2));
        },
        ArgKind::Verbose => {
            args.verbose = true;
        },
        ArgKind::Input => {
            args.input_files.push(s.to_owned());
        },
        _ => {},
    }
}

fn name_of_flag(k: ArgKind) -> (r: &'static str)
    ensures
        r@ == flag_name(k),
{
    match k {
        ArgKind::Output => "-o",
        ArgKind::Entry => "-e",
        ArgKind::Library => "-l",
        ArgKind::Emulation => "-m",
        ArgKind::DynamicLinker => "--dynamic-linker",
        ArgKind::Target => "--target",
        _ => "-L",
    }
}

fn has_value(k: ArgKind) -> (r: bool)
    ensures
        r == takes_value(k),
{
    match k {
        ArgKind::Output | ArgKind::Entry | ArgKind::Library | ArgKind::Emulation
        | ArgKind::DynamicLinker | ArgKind::Target | ArgKind::SearchPath => true,
        _ => false,
    }
}

/// Reads the command line, without the name of the program.
pub fn parse_args(argv: &[String]) -> (r: Result<ParseAction, String>)
    ensures
        model::outcome(r) == parsed(model::views(argv@)),
{
    broadcast use model::group_views;
    let mut args = ParsedArgs::default();
    let ghost words = model::views(argv@);
    let mut i: usize = 0;
    while i < argv.len()
        invariant
            i <= argv@.len(),
            words == model::views(argv@),
            parse_from(words, 0, no_args()) == parse_from(words, i as nat, args@),
        decreases argv@.len() - i,
    {
        let a = argv[i].as_str();
        assert(words[i as int] == a@);
        let k = classify(a);
        i = i + 1;
        if has_value(k) {
            match take_required_arg(argv, i, name_of_flag(k)) {
                Ok(v) => {
                    assert(words[i as int] == v@);
                    set_value(&mut args, k, v);
                    i = i + 1;
                },
                Err(e) => {
                    return Err(e);
                },
            }
        } else {
            match k {
                ArgKind::Help => {
                    return Ok(ParseAction::Help);
                },
                ArgKind::Version => {
                    return Ok(ParseAction::Version);
                },
                ArgKind::SkipOne => {
                    i = skip_args(argv, i, 1);
                },
                ArgKind::SkipThree => {
                    i = skip_args(argv, i, 3);
                },
                _ => {
                    set_flag(&mut args, k, a);
                },
            }
        }
    }
    Ok(ParseAction::Run(args))
}

/// A flag that the linker does not know changes nothing.
pub proof fn law_unknown_flags_are_ignored(argv: Seq<Seq<char>>, i: nat, a: ArgsModel)
    requires
        i < argv.len(),
        kind_of(argv[i as int]) == ArgKind::Ignored,
    ensures
        parse_from(argv, i, a) == parse_from(argv, i + 1, a),
{
}

/// The values of a flag that takes them are never taken for input files.
pub proof fn law_skipped_values_are_no_inputs(argv: Seq<Seq<char>>, i: nat, a: ArgsModel)
    requires
        i + 3 < argv.len(),
        kind_of(argv[i as int]) == ArgKind::SkipThree,
    ensures
        parse_from(argv, i, a) == parse_from(argv, i + 4, a),
{
}

proof fn lemma_flags_start_with_dash(s: Seq<char>)
    requires
        !text::is_prefix("-"@, s),
    ensures
        kind_of(s) == ArgKind::Input,
{
    reveal_strlit("-");
    reveal_strlit("--dynamic-linker");
    reveal_strlit("--entry");
    reveal_strlit("--help");
    reveal_strlit("--output");
    reveal_strlit("--target");
    reveal_strlit("--verbose");
    reveal_strlit("--version");
    reveal_strlit("-B");
    reveal_strlit("-F");
    reveal_strlit("-L");
    reveal_strlit("-arch");
    reveal_strlit("-dead_strip");
    reveal_strlit("-demangle");
    reveal_strlit("-dynamic");
    reveal_strlit("-e");
    reveal_strlit("-exported_symbols_list");
    reveal_strlit("-filelist");
    reveal_strlit("-framework");
    reveal_strlit("-h");
    reveal_strlit("-install_name");
    reveal_strlit("-l");
    reveal_strlit("-lto_library");
    reveal_strlit("-m");
    reveal_strlit("-mllvm");
    reveal_strlit("-no_deduplicate");
    reveal_strlit("-o");
    reveal_strlit("-object_path_lto");
    reveal_strlit("-platform_version");
    reveal_strlit("-syslibroot");
    reveal_strlit("-v");
    reveal_strlit("-weak_framework");
    if s.len() > 0 && s[0] == '-' {
        assert(s.subrange(0, 1) =~= "-"@);
    }
    if text::is_prefix("-l"@, s) {
        assert(s.subrange(0, 2)[0] == s[0]);
    }
    if text::is_prefix("-L"@, s) {
        assert(s.subrange(0, 2)[0] == s[0]);
    }
}

/// Arguments that are no flags are the input files, in their order.
pub proof fn law_plain_arguments_are_inputs(argv: Seq<Seq<char>>, i: nat, a: ArgsModel)
    requires
        i <= argv.len(),
        forall|k: int| i <= k < argv.len() ==> !text::is_prefix("-"@, #[trigger] argv[k]),
    ensures
        parse_from(argv, i, a) == Ok::<ActionModel, Seq<char>>(
            ActionModel::Run(
                ArgsModel {
                    input_files: a.input_files + argv.subrange(i as int, argv.len() as int),
                    ..a
                },
            ),
        ),
    decreases argv.len() - i,
{
    let rest = argv.subrange(i as int, argv.len() as int);
    if i < argv.len() {
        let s = argv[i as int];
        lemma_flags_start_with_dash(s);
        let next = ArgsModel { input_files: a.input_files.push(s), ..a };
        law_plain_arguments_are_inputs(argv, i + 1, next);
        let tail = argv.subrange(i as int + 1, argv.len() as int);
        assert(a.input_files.push(s) + tail =~= a.input_files + rest);
    } else {
        assert(a.input_files + rest =~= a.input_files);
    }
}

/// Of a setting that is given twice in a row the second counts.
pub proof fn law_later_setting_counts(argv: Seq<Seq<char>>, i: nat, a: ArgsModel)
    requires
        i + 3 < argv.len(),
        kind_of(argv[i as int]) == kind_of(argv[i as int + 2]),
        kind_of(argv[i as int]) == ArgKind::Output || kind_of(argv[i as int]) == ArgKind::Entry
            || kind_of(argv[i as int]) == ArgKind::Emulation || kind_of(argv[i as int])
            == ArgKind::DynamicLinker || kind_of(argv[i as int]) == ArgKind::Target,
    ensures
        parse_from(argv, i, a) == parse_from(argv, i + 2, a),
{
    let k = kind_of(argv[i as int]);
    let b = with_value(a, k, argv[i as int + 1]);
    assert(parse_from(argv, i, a) == parse_from(argv, i + 2, b));
    assert(parse_from(argv, i + 2, b)
        == parse_from(argv, i + 4, with_value(b, k, argv[i as int + 3])));
    assert(parse_from(argv, i + 2, a)
        == parse_from(argv, i + 4, with_value(a, k, argv[i as int + 3])));
}

/// Whether a flag is one that the linker names, alone or by its first letters.
pub open spec fn is_named_option(s: Seq<char>) -> bool {
    ||| s == "-o"@
    ||| s == "--output"@
    ||| s == "-e"@
    ||| s == "--entry"@
    ||| skips_value(s)
    ||| s == "-platform_version"@
    ||| s == "-m"@
    ||| s == "--dynamic-linker"@
    ||| s == "--target"@
    ||| s == "-v"@
    ||| s == "--verbose"@
    ||| s == "-h"@
    ||| s == "--help"@
    ||| s == "--version"@
    ||| text::is_prefix("-l"@, s)
    ||| text::is_prefix("-L"@, s)
}

/// What the whole command line asks for.
pub open spec fn parsed(argv: Seq<Seq<char>>) -> Result<ActionModel, Seq<char>> {
    parse_from(argv, 0, no_args())
}

/// A result with input files put in front of its own.
pub open spec fn with_inputs_first(
    files: Seq<Seq<char>>,
    r: Result<ActionModel, Seq<char>>,
) -> Result<ActionModel, Seq<char>> {
    match r {
        Ok(ActionModel::Run(a)) => Ok(
            ActionModel::Run(ArgsModel { input_files: files + a.input_files, ..a }),
        ),
        _ => r,
    }
}

proof fn lemma_word_in_front(s: Seq<char>, rest: Seq<Seq<char>>, i: nat, a: ArgsModel)
    ensures
        parse_from(seq![s] + rest, i + 1, a) == parse_from(rest, i, a),
    decreases rest.len() - i,
{
    let argv = seq![s] + rest;
    if i < rest.len() {
        let k = kind_of(rest[i as int]);
        assert(argv[i as int + 1] == rest[i as int]);
        if i + 1 < rest.len() {
            assert(argv[i as int + 2] == rest[i as int + 1]);
        }
        if takes_value(k) {
            if i + 1 < rest.len() {
                lemma_word_in_front(s, rest, i + 2, with_value(a, k, rest[i as int + 1]));
            }
        } else if k == ArgKind::SkipOne {
            lemma_word_in_front(s, rest, skipped(rest.len(), i + 1, 1), a);
        } else if k == ArgKind::SkipThree {
            lemma_word_in_front(s, rest, skipped(rest.len(), i + 1, 3), a);
        } else if k != ArgKind::Help && k != ArgKind::Version {
            lemma_word_in_front(s, rest, i + 1, with_flag(a, k, rest[i as int]));
        }
    }
}

proof fn lemma_inputs_first(
    argv: Seq<Seq<char>>,
    i: nat,
    a: ArgsModel,
    files: Seq<Seq<char>>,
)
    ensures
        parse_from(argv, i, ArgsModel { input_files: files + a.input_files, ..a })
            == with_inputs_first(files, parse_from(argv, i, a)),
    decreases argv.len() - i,
{
    let b = ArgsModel { input_files: files + a.input_files, ..a };
    if i < argv.len() {
        let s = argv[i as int];
        let k = kind_of(s);
        if takes_value(k) {
            if i + 1 < argv.len() {
                let v = argv[i as int + 1];
                let next = with_value(a, k, v);
                assert(with_value(b, k, v) == ArgsModel {
                    input_files: files + next.input_files,
                    ..next
                });
                lemma_inputs_first(argv, i + 2, next, files);
            }
        } else if k == ArgKind::SkipOne {
            lemma_inputs_first(argv, skipped(argv.len(), i + 1, 1), a, files);
        } else if k == ArgKind::SkipThree {
            lemma_inputs_first(argv, skipped(argv.len(), i + 1, 3), a, files);
        } else if k != ArgKind::Help && k != ArgKind::Version {
            let next = with_flag(a, k, s);
            assert((files + a.input_files).push(s) =~= files + a.input_files.push(s));
            assert(with_flag(b, k, s) == ArgsModel {
                input_files: files + next.input_files,
                ..next
            });
            lemma_inputs_first(argv, i + 1, next, files);
        }
    }
}

/// A flag that the linker does not name changes nothing in front of a command line, whatever the
/// rest asks for, and neither does one that it names and ignores.
pub proof fn law_ignored_flag_in_front_changes_nothing(f: Seq<char>, rest: Seq<Seq<char>>)
    requires
        text::is_prefix("-"@, f) && !is_named_option(f) || kind_of(f) == ArgKind::Ignored,
    ensures
        parsed(seq![f] + rest) == parsed(rest),
{
    reveal_strlit("-l");
    reveal_strlit("-L");
    assert("-l"@.subrange(0, 2) =~= "-l"@);
    assert("-L"@.subrange(0, 2) =~= "-L"@);
    assert(kind_of(f) == ArgKind::Ignored);
    assert((seq![f] + rest)[0] == f);
    lemma_word_in_front(f, rest, 0, no_args());
}

/// An argument that is no flag, in front of a command line, becomes the first of the input files
/// and changes nothing else.
pub proof fn law_input_in_front_comes_first(x: Seq<char>, rest: Seq<Seq<char>>)
    requires
        !text::is_prefix("-"@, x),
    ensures
        parsed(seq![x] + rest) == with_inputs_first(seq![x], parsed(rest)),
{
    let none = no_args();
    lemma_flags_start_with_dash(x);
    assert((seq![x] + rest)[0] == x);
    assert(none.input_files.push(x) =~= seq![x] + none.input_files);
    lemma_word_in_front(x, rest, 0, ArgsModel { input_files: none.input_files.push(x), ..none });
    lemma_inputs_first(rest, 0, none, seq![x]);
}

} // verus!
