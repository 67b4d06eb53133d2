//! The command line.
use weld::cli::{parse_args, ParseAction, ParsedArgs};

fn words(list: &[&str]) -> Vec<String> {
    list.iter().map(|s| s.to_string()).collect()
}

fn run(list: &[&str]) -> ParsedArgs {
    match parse_args(&words(list)).expect("parse args") {
        ParseAction::Run(a) => a,
        _ => panic!("expected ParseAction::Run"),
    }
}

#[test]
fn parses_clang_macos_linker_flags_without_treating_versions_as_inputs() {
    let argv = vec![
        "-demangle",
        "-lto_library",
        "/Applications/Xcode.app/Contents/Developer/Toolchains/XcodeDefault.xctoolchain/usr/lib/libLTO.dylib",
        "-no_deduplicate",
        "-dynamic",
        "-arch",
        "arm64",
        "-platform_version",
        "macos",
        "26.0.0",
        "26.2",
        "-syslibroot",
        "/Applications/Xcode.app/Contents/Developer/Platforms/MacOSX.platform/Developer/SDKs/MacOSX.sdk",
        "-mllvm",
        "-enable-linkonceodr-outlining",
        "-o",
        "/tmp/weld_bench_main",
        "-L/usr/local/lib",
        "/tmp/main-e06c85.o",
        "-lSystem",
        "/Applications/Xcode.app/Contents/Developer/Toolchains/XcodeDefault.xctoolchain/usr/lib/clang/17/lib/darwin/libclang_rt.osx.a",
    ]
    .into_iter()
    .map(str::to_string)
    .collect::<Vec<_>>();

    let ParseAction::Run(parsed) = parse_args(&argv).expect("parse args") else {
        panic!("expected ParseAction::Run");
    };

    assert!(parsed.input_files.iter().any(|p| p == "/tmp/main-e06c85.o"));
    assert!(parsed.input_files.iter().any(|p| p.ends_with("libclang_rt.osx.a")));
    assert!(!parsed.input_files.iter().any(|p| p == "26.0.0"));
    assert!(!parsed.input_files.iter().any(|p| p == "26.2"));
    assert!(parsed.libraries.iter().any(|l| l == "System"));
}

#[test]
fn options_with_values() {
    let a = run(&[
        "-o", "out", "-e", "begin", "-l", "c", "-lm", "-m", "elf_x86_64", "--dynamic-linker",
        "/lib/ld.so", "--target", "freebsd", "-L", "/a", "-L/b", "-v", "x.o",
    ]);
    assert_eq!(a.output_file.as_deref(), Some("out"));
    assert_eq!(a.entry.as_deref(), Some("begin"));
    assert_eq!(a.libraries, vec!["c", "m"]);
    assert_eq!(a.emulation.as_deref(), Some("elf_x86_64"));
    assert_eq!(a.dynamic_linker.as_deref(), Some("/lib/ld.so"));
    assert_eq!(a.target_os.as_deref(), Some("freebsd"));
    assert_eq!(a.search_paths, vec!["/a", "/b"]);
    assert!(a.verbose);
    assert_eq!(a.input_files, vec!["x.o"]);
}

#[test]
fn missing_values_are_errors() {
    for (args, flag) in [
        (vec!["-o"], "-o"),
        (vec!["--output"], "-o"),
        (vec!["--entry"], "-e"),
        (vec!["-l"], "-l"),
        (vec!["-m"], "-m"),
        (vec!["--dynamic-linker"], "--dynamic-linker"),
        (vec!["--target"], "--target"),
        (vec!["-L"], "-L"),
    ] {
        let err = match parse_args(&words(&args)) {
            Err(e) => e,
            Ok(_) => panic!("expected an error"),
        };
        assert_eq!(err, format!("Missing argument for {}", flag));
    }
}

#[test]
fn help_and_version_win_over_what_follows() {
    assert!(matches!(parse_args(&words(&["-h", "-o"])), Ok(ParseAction::Help)));
    assert!(matches!(parse_args(&words(&["--version", "-o"])), Ok(ParseAction::Version)));
}

#[test]
fn unknown_flags_change_nothing_and_skipping_stops_at_the_end() {
    let a = run(&["-Wl,-z", "-nostdlib", "--frobnicate", "-Bx", "-Fy", "-mios1", "-framework"]);
    assert!(a.input_files.is_empty());
    assert!(a.libraries.is_empty());
    let b = run(&["-platform_version", "a.o", "b.o"]);
    assert!(b.input_files.is_empty());
    let c = run(&["-platform_version", "1", "2", "3", "a.o"]);
    assert_eq!(c.input_files, vec!["a.o"]);
}

#[test]
fn plain_arguments_are_inputs_and_later_settings_count() {
    let a = run(&["a.o", "b.a", "c"]);
    assert_eq!(a.input_files, vec!["a.o", "b.a", "c"]);
    assert!(a.libraries.is_empty() && a.output_file.is_none());
    let a = run(&["-o", "x", "--output", "y", "-e", "f", "--entry", "g", "--target", "linux", "--target", "ps4"]);
    assert_eq!(a.output_file.as_deref(), Some("y"));
    assert_eq!(a.entry.as_deref(), Some("g"));
    assert_eq!(a.target_os.as_deref(), Some("ps4"));
}

#[test]
fn what_stands_in_front_of_a_command_line() {
    let rest = ["-o", "out", "b.o", "-lc", "-L/x", "-v", "-platform_version", "a", "b"];
    let plain = run(&rest);
    for flag in ["--gc-sections", "-Wl,x", "-nostdlib", "-mmacosx-version-min=11", "-demangle", "-"] {
        let mut list = vec![flag];
        list.extend(rest);
        assert_eq!(format!("{:?}", run(&list)), format!("{:?}", plain));
    }
    let mut list = vec!["a.o"];
    list.extend(rest);
    let mut first = run(&list);
    assert_eq!(first.input_files, vec!["a.o", "b.o"]);
    first.input_files.remove(0);
    assert_eq!(format!("{:?}", first), format!("{:?}", plain));
    // What the rest asks for otherwise stays as well.
    assert!(matches!(parse_args(&words(&["-x", "--help"])), Ok(ParseAction::Help)));
    assert!(matches!(parse_args(&words(&["a.o", "--version"])), Ok(ParseAction::Version)));
    assert_eq!(parse_args(&words(&["-x", "-o"])).unwrap_err(), "Missing argument for -o");
}
