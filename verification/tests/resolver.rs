//! Where libraries may stand.
use weld::arch::TargetArch;
use weld::link::resolver::{join_path, LibraryResolver};
use weld::platform::TargetPlatform;

#[test]
fn test_candidates_linux() {
    let r = LibraryResolver::new(TargetArch::X86_64, TargetPlatform::Linux);
    let cands = r.candidates("c");
    // Should have versioned entries and a static fallback.
    assert!(cands.iter().any(|(f, _, s)| f == "libc.so.6" && !s));
    assert!(cands.iter().any(|(f, _, s)| f == "libc.a" && *s));
}

#[test]
fn test_candidates_macos() {
    let r = LibraryResolver::new(TargetArch::AArch64, TargetPlatform::MacOS);
    let cands = r.candidates("System");
    assert!(cands.iter().any(|(f, _, s)| f == "libSystem.dylib" && !s));
    assert!(cands.iter().any(|(f, _, s)| f == "libSystem.a" && *s));
}

#[test]
fn test_expected_soname() {
    let r = LibraryResolver::new(TargetArch::X86_64, TargetPlatform::Linux);
    assert_eq!(r.expected_soname("c"), "libc.so.6");

    let r = LibraryResolver::new(TargetArch::AArch64, TargetPlatform::MacOS);
    assert_eq!(r.expected_soname("c"), "libc.dylib");
}

#[test]
fn test_add_path_prepended() {
    let mut r = LibraryResolver::new(TargetArch::X86_64, TargetPlatform::Linux);
    let extra = String::from("/custom/lib");
    r.add_path(extra.clone());
    assert_eq!(r.search_paths[0], extra);
}

#[test]
fn test_candidates_windows() {
    let r = LibraryResolver::new(TargetArch::X86_64, TargetPlatform::Windows);
    let cands = r.candidates("kernel32");
    // Primary candidate: kernel32.lib (import library)
    assert!(
        cands
            .iter()
            .any(|(f, soname, _)| f == "kernel32.lib" && soname == "kernel32.dll"),
        "expected kernel32.lib -> kernel32.dll"
    );
    // libkernel32.lib alternative form
    assert!(
        cands.iter().any(|(f, _, _)| f == "libkernel32.lib"),
        "expected libkernel32.lib candidate"
    );
    // Bare DLL fallback
    assert!(
        cands.iter().any(|(f, _, _)| f == "kernel32.dll"),
        "expected kernel32.dll candidate"
    );
}

#[test]
fn test_expected_soname_windows() {
    let r = LibraryResolver::new(TargetArch::X86_64, TargetPlatform::Windows);
    assert_eq!(r.expected_soname("kernel32"), "kernel32.dll");
}

#[test]
fn test_linux_search_paths_contain_standard_dirs() {
    let r = LibraryResolver::new(TargetArch::X86_64, TargetPlatform::Linux);
    let paths: Vec<String> = r.search_paths.clone();
    assert!(paths.contains(&"/usr/lib".to_string()));
    assert!(paths.contains(&"/usr/lib/x86_64-linux-gnu".to_string()));
}

#[test]
fn test_linux_aarch64_search_paths() {
    let r = LibraryResolver::new(TargetArch::AArch64, TargetPlatform::Linux);
    let paths: Vec<String> = r.search_paths.clone();
    assert!(paths.contains(&"/lib/aarch64-linux-gnu".to_string()));
}

#[test]
fn the_first_file_that_is_there_is_taken() {
    let mut r = LibraryResolver::new(TargetArch::X86_64, TargetPlatform::Linux);
    r.add_path("/x".to_string());
    let probes = r.probe_paths("z");
    assert_eq!(probes.len(), 8 * 7);
    assert_eq!(probes[0], "/x/libz.so.6");
    assert_eq!(probes[6], "/x/libz.a");
    assert_eq!(probes[7], "/lib/x86_64-linux-gnu/libz.so.6");

    let present: Vec<bool> = probes
        .iter()
        .map(|p| p == "/x/libz.a" || p == "/lib64/libz.so.1")
        .collect();
    let lib = r.resolve("z", &present).expect("found");
    assert_eq!(lib.path, "/x/libz.a");
    assert_eq!(lib.soname, "libz.a");
    assert!(lib.is_static);

    let present: Vec<bool> = probes.iter().map(|p| p == "/lib64/libz.so.1").collect();
    let lib = r.resolve("z", &present).expect("found");
    assert_eq!(lib.path, "/lib64/libz.so.1");
    assert_eq!(lib.soname, "libz.so.1");
    assert!(!lib.is_static);

    assert!(r.resolve("z", &vec![false; probes.len()]).is_none());
    assert!(r.resolve("z", &[]).is_none());
}

#[test]
fn directories_of_the_host() {
    let found = vec!["/opt/homebrew/opt/a/lib".to_string()];
    let mac = LibraryResolver::with_host_dirs(
        TargetArch::AArch64,
        TargetPlatform::MacOS,
        &found,
        None,
    );
    assert_eq!(
        mac.search_paths,
        vec!["/usr/lib", "/usr/local/lib", "/opt/homebrew/lib", "/opt/homebrew/opt/a/lib"]
    );
    let win = LibraryResolver::with_host_dirs(
        TargetArch::X86_64,
        TargetPlatform::Windows,
        &vec![],
        Some("D:\\W\\System32".to_string()),
    );
    assert_eq!(win.search_paths, vec!["D:\\W\\System32"]);
    let plain = LibraryResolver::new(TargetArch::X86_64, TargetPlatform::Windows);
    assert_eq!(plain.search_paths, vec!["C:\\Windows\\System32"]);
    let riscv = LibraryResolver::new(TargetArch::RiscV, TargetPlatform::Linux);
    assert_eq!(riscv.search_paths[0], "/lib/riscv64-linux-gnu");
}

#[test]
fn paths_are_written_as_the_platform_writes_them() {
    let win = LibraryResolver::new(TargetArch::X86_64, TargetPlatform::Windows);
    assert_eq!(
        win.probe_paths("kernel32"),
        vec![
            "C:\\Windows\\System32\\kernel32.lib",
            "C:\\Windows\\System32\\libkernel32.lib",
            "C:\\Windows\\System32\\kernel32.dll",
        ]
    );
    let lib = win.resolve("kernel32", &[false, false, true]).expect("found");
    assert_eq!(lib.path, "C:\\Windows\\System32\\kernel32.dll");

    let w = TargetPlatform::Windows;
    assert_eq!(join_path(w, "C:\\libs\\", "a.lib"), "C:\\libs\\a.lib");
    assert_eq!(join_path(w, "C:\\libs/", "a.lib"), "C:\\libs/a.lib");
    assert_eq!(join_path(w, "", "a.lib"), "a.lib");
    assert_eq!(join_path(w, "C:", "a.lib"), "C:a.lib");
    assert_eq!(join_path(w, "C:\\libs", "\\a.lib"), "C:\\a.lib");
    assert_eq!(join_path(w, "libs", "/a.lib"), "/a.lib");
    assert_eq!(join_path(w, "C:\\libs", "D:a.lib"), "D:a.lib");

    let l = TargetPlatform::Linux;
    assert_eq!(join_path(l, "/lib", "a.so"), "/lib/a.so");
    assert_eq!(join_path(l, "/lib/", "a.so"), "/lib/a.so");
    assert_eq!(join_path(l, "/lib", "/a.so"), "/a.so");
    assert_eq!(join_path(l, "C:", "\\a.so"), "C:/\\a.so");
    assert_eq!(join_path(TargetPlatform::MacOS, "lib\\", "a.a"), "lib\\/a.a");
}
