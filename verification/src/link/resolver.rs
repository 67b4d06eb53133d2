//! Where libraries that are named on the command line may stand.
//!
//! A library is looked for in a list of directories, under a list of file names.
//! Looking into the file system is left to the caller: [`LibraryResolver::probe_paths`]
//! lists the files in the order of their precedence, and
//! [`LibraryResolver::resolve`] takes which of them are there.
use vstd::prelude::*;
use vstd::string::*;
use crate::arch::TargetArch;
use crate::model;
use crate::names::clone_names;
use crate::platform::TargetPlatform;
use crate::text::{join2, join3};

verus! {

/// A library that was found.
#[derive(Debug, Clone)]
pub struct ResolvedLibrary {
    /// The path of the file.
    pub path: String,
    /// The name under which an image asks for the library. For shared libraries this is the
    /// real name, for static archives that of the file.
    pub soname: String,
    /// Whether the file is a static archive.
    pub is_static: bool,
}

/// The view of a library that was found.
pub struct LibraryModel {
    pub path: Seq<char>,
    pub soname: Seq<char>,
    pub is_static: bool,
}

impl View for ResolvedLibrary {
    type V = LibraryModel;

    open spec fn view(&self) -> LibraryModel {
        LibraryModel { path: self.path@, soname: self.soname@, is_static: self.is_static }
    }
}

/// A file that a library may stand in: its name, the name under which an image asks for the
/// library, and whether it is a static archive.
pub type Candidate = (Seq<char>, Seq<char>, bool);

/// A candidate that an image asks for by the name of the file.
pub open spec fn plain_candidate(file: Seq<char>, is_static: bool) -> Candidate {
    (file, file, is_static)
}

/// The files that a library may stand in: shared ones before static ones, those with a version
/// before those without.
pub open spec fn candidates_of(platform: TargetPlatform, name: Seq<char>) -> Seq<Candidate> {
    match platform {
        TargetPlatform::Linux => seq![
            plain_candidate("lib"@ + name + ".so.6"@, false),
            plain_candidate("lib"@ + name + ".so.5"@, false),
            plain_candidate("lib"@ + name + ".so.2"@, false),
            plain_candidate("lib"@ + name + ".so.1"@, false),
            plain_candidate("lib"@ + name + ".so.0"@, false),
            plain_candidate("lib"@ + name + ".so"@, false),
            plain_candidate("lib"@ + name + ".a"@, true),
        ],
        TargetPlatform::MacOS => seq![
            plain_candidate("lib"@ + name + ".dylib"@, false),
            ("lib"@ + name + ".tbd"@, "lib"@ + name + ".dylib"@, false),
            plain_candidate("lib"@ + name + ".a"@, true),
        ],
        TargetPlatform::Windows => seq![
            (name + ".lib"@, name + ".dll"@, false),
            ("lib"@ + name + ".lib"@, name + ".dll"@, false),
            plain_candidate(name + ".dll"@, false),
        ],
    }
}

/// The name under which a library is expected at run time.
pub open spec fn soname_of(platform: TargetPlatform, name: Seq<char>) -> Seq<char> {
    match platform {
        TargetPlatform::Linux => "lib"@ + name + ".so.6"@,
        TargetPlatform::MacOS => "lib"@ + name + ".dylib"@,
        TargetPlatform::Windows => name + ".dll"@,
    }
}

/// The directories with the libraries of one architecture.
pub open spec fn arch_dirs(arch: TargetArch) -> Seq<Seq<char>> {
    match arch {
        TargetArch::X86_64 => seq![
            "/lib/x86_64-linux-gnu"@,
            "/usr/lib/x86_64-linux-gnu"@,
            "/lib64"@,
            "/usr/lib64"@,
        ],
        TargetArch::AArch64 => seq!["/lib/aarch64-linux-gnu"@, "/usr/lib/aarch64-linux-gnu"@],
        TargetArch::RiscV => seq!["/lib/riscv64-linux-gnu"@, "/usr/lib/riscv64-linux-gnu"@],
    }
}

/// The directories in which libraries are looked for. `found` are those that the host has
/// besides, `system` is where it keeps its own.
pub open spec fn search_dirs(
    arch: TargetArch,
    platform: TargetPlatform,
    found: Seq<Seq<char>>,
    system: Option<Seq<char>>,
) -> Seq<Seq<char>> {
    match platform {
        TargetPlatform::Linux => arch_dirs(arch) + seq!["/lib"@, "/usr/lib"@, "/usr/local/lib"@],
        TargetPlatform::MacOS => seq!["/usr/lib"@, "/usr/local/lib"@, "/opt/homebrew/lib"@] + found,
        TargetPlatform::Windows => found.push(
            match system {
                Some(s) => s,
                None => "C:\\Windows\\System32"@,
            },
        ),
    }
}

/// Whether a character parts the names in a path.
pub open spec fn is_separator(platform: TargetPlatform, c: char) -> bool {
    c == '/' || platform == TargetPlatform::Windows && c == '\\'
}

/// The text that is put between a directory and a file.
pub open spec fn separator(platform: TargetPlatform) -> Seq<char> {
    match platform {
        TargetPlatform::Windows => "\\"@,
        _ => "/"@,
    }
}

/// Whether a path begins with the letter of a drive.
pub open spec fn has_drive(platform: TargetPlatform, path: Seq<char>) -> bool {
    &&& platform == TargetPlatform::Windows
    &&& path.len() >= 2
    &&& 'a' <= path[0] <= 'z' || 'A' <= path[0] <= 'Z'
    &&& path[1] == ':'
}

/// A file in a directory. A file that names its own drive or root is not taken from the
/// directory; one with a root but no drive stays on the directory's drive. Shares and verbatim
/// paths of Windows count as names like others.
pub open spec fn joined(
    platform: TargetPlatform,
    dir: Seq<char>,
    file: Seq<char>,
) -> Seq<char> {
    if has_drive(platform, file) {
        file
    } else if file.len() > 0 && is_separator(platform, file[0]) {
        if has_drive(platform, dir) {
            dir.subrange(0, 2) + file
        } else {
            file
        }
    } else if dir.len() == 0 || is_separator(platform, dir.last())
        || has_drive(platform, dir) && dir.len() == 2 {
        dir + file
    } else {
        dir + separator(platform) + file
    }
}

fn separates(platform: TargetPlatform, c: char) -> (r: bool)
    ensures
        r == is_separator(platform, c),
{
    c == '/' || platform == TargetPlatform::Windows && c == '\\'
}

fn names_drive(platform: TargetPlatform, path: &str) -> (r: bool)
    ensures
        r == has_drive(platform, path@),
{
    if platform != TargetPlatform::Windows || path.unicode_len() < 2 {
        return false;
    }
    let c = path.get_char(0);
    ('a' <= c && c <= 'z' || 'A' <= c && c <= 'Z') && path.get_char(1) == ':'
}

/// The path of a file in a directory, as a platform writes paths.
pub fn join_path(platform: TargetPlatform, dir: &str, file: &str) -> (r: String)
    ensures
        r@ == joined(platform, dir@, file@),
{
    if names_drive(platform, file) {
        return file.to_owned();
    }
    let n: usize = dir.unicode_len();
    let drive = names_drive(platform, dir);
    if file.unicode_len() > 0 && separates(platform, file.get_char(0)) {
        if drive {
            return join2(dir.substring_char(0, 2), file);
        }
        return file.to_owned();
    }
    if n == 0 || separates(platform, dir.get_char(n - 1)) || drive && n == 2 {
        return join2(dir, file);
    }
    match platform {
        TargetPlatform::Windows => join3(dir, "\\", file),
        _ => join3(dir, "/", file),
    }
}

/// The paths of the candidates in the directories, directory by directory.
pub open spec fn probes_of(
    platform: TargetPlatform,
    dirs: Seq<Seq<char>>,
    candidates: Seq<Candidate>,
) -> Seq<Seq<char>> {
    Seq::new(
        dirs.len() * candidates.len(),
        |k: int|
            joined(
                platform,
                dirs[k / (candidates.len() as int)],
                candidates[k % (candidates.len() as int)].0,
            ),
    )
}

/// The position of the first `true` at or after `i`, or the length.
pub open spec fn first_present(present: Seq<bool>, i: nat) -> nat
    decreases present.len() - i,
{
    if i >= present.len() || present[i as int] {
        i
    } else {
        first_present(present, i + 1)
    }
}

/// The first file that is there.
pub open spec fn found_library(
    platform: TargetPlatform,
    dirs: Seq<Seq<char>>,
    candidates: Seq<Candidate>,
    present: Seq<bool>,
) -> Option<LibraryModel> {
    let k = first_present(present, 0);
    if k < present.len() && k < dirs.len() * candidates.len() {
        let c = candidates[k as int % (candidates.len() as int)];
        Some(
            LibraryModel {
                path: probes_of(platform, dirs, candidates)[k as int],
                soname: c.1,
                is_static: c.2,
            },
        )
    } else {
        None
    }
}

/// Looks for libraries in a list of directories.
///
/// A shared library is preferred to a static archive, and one with a version in its name to one
/// without.
#[derive(Debug, Clone)]
pub struct LibraryResolver {
    pub search_paths: Vec<String>,
    pub arch: TargetArch,
    pub platform: TargetPlatform,
}

fn push_text(v: &mut Vec<String>, s: &str)
    ensures
        model::views(final(v)@) == model::views(old(v)@).push(s@),
{
    broadcast use model::group_views;
    v.push(s.to_owned());
}

fn push_candidate(
    v: &mut Vec<(String, String, bool)>,
    file: String,
    soname: String,
    is_static: bool,
)
    ensures
        model::views(final(v)@) == model::views(old(v)@).push((file@, soname@, is_static)),
{
    broadcast use model::group_views;
    v.push((file, soname, is_static));
}

impl LibraryResolver {
    /// A resolver with the usual directories of a platform and an architecture.
    pub fn new(arch: TargetArch, platform: TargetPlatform) -> (r: Self)
        ensures
            model::views(r.search_paths@) == search_dirs(arch, platform, seq![], None),
            r.arch == arch,
            r.platform == platform,
    {
        let found: Vec<String> = Vec::new();
        assert(model::views(found@) =~= seq![]);
        LibraryResolver::with_host_dirs(arch, platform, &found, None)
    }

    /// A resolver with the usual directories and those that the host has besides: `found`, and
    /// `system` in place of the usual directory of the system.
    pub fn with_host_dirs(
        arch: TargetArch,
        platform: TargetPlatform,
        found: &Vec<String>,
        system: Option<String>,
    ) -> (r: Self)
        ensures
            model::views(r.search_paths@)
                == search_dirs(arch, platform, model::views(found@), model::view_opt(system)),
            r.arch == arch,
            r.platform == platform,
    {
        broadcast use model::group_views;
        let mut v: Vec<String> = Vec::new();
        match platform {
            TargetPlatform::Linux => {
                match arch {
                    TargetArch::X86_64 => {
                        push_text(&mut v, "/lib/x86_64-linux-gnu");
                        push_text(&mut v, "/usr/lib/x86_64-linux-gnu");
                        push_text(&mut v, "/lib64");
                        push_text(&mut v, "/usr/lib64");
                    },
                    TargetArch::AArch64 => {
                        push_text(&mut v, "/lib/aarch64-linux-gnu");
                        push_text(&mut v, "/usr/lib/aarch64-linux-gnu");
                    },
                    TargetArch::RiscV => {
                        push_text(&mut v, "/lib/riscv64-linux-gnu");
                        push_text(&mut v, "/usr/lib/riscv64-linux-gnu");
                    },
                }
                push_text(&mut v, "/lib");
                push_text(&mut v, "/usr/lib");
                push_text(&mut v, "/usr/local/lib");
            },
            TargetPlatform::MacOS => {
                push_text(&mut v, "/usr/lib");
                push_text(&mut v, "/usr/local/lib");
                push_text(&mut v, "/opt/homebrew/lib");
                let ghost head = model::views(v@);
                let mut more = clone_names(found);
                let ghost rest = more@;
                v.append(&mut more);
                assert(model::views(v@) =~= head + model::views(rest));
            },
            TargetPlatform::Windows => {
                v = clone_names(found);
                match system {
                    Some(s) => {
                        v.push(s);
                    },
                    None => {
                        push_text(&mut v, "C:\\Windows\\System32");
                    },
                }
            },
        }
        assert(model::views(v@) =~= search_dirs(arch, platform, model::views(found@),
            model::view_opt(system)));
        LibraryResolver { search_paths: v, arch, platform }
    }

    /// Puts a directory in front of the others.
    pub fn add_path(&mut self, path: String)
        ensures
            model::views(final(self).search_paths@)
                == model::views(old(self).search_paths@).insert(0, path@),
            final(self).arch == old(self).arch,
            final(self).platform == old(self).platform,
    {
        self.search_paths.insert(0, path);
        assert(model::views(self.search_paths@) =~= model::views(old(self).search_paths@).insert(0, path@));
    }

    /// The files that may hold a library, by precedence.
    pub fn candidates(&self, lib_name: &str) -> (r: Vec<(String, String, bool)>)
        ensures
            model::views(r@) == candidates_of(self.platform, lib_name@),
    {
        broadcast use model::group_views;
        let mut v: Vec<(String, String, bool)> = Vec::new();
        match self.platform {
            TargetPlatform::Linux => {
                push_candidate(&mut v, join3("lib", lib_name, ".so.6"),
                    join3("lib", lib_name, ".so.6"), false);
                push_candidate(&mut v, join3("lib", lib_name, ".so.5"),
                    join3("lib", lib_name, ".so.5"), false);
                push_candidate(&mut v, join3("lib", lib_name, ".so.2"),
                    join3("lib", lib_name, ".so.2"), false);
                push_candidate(&mut v, join3("lib", lib_name, ".so.1"),
                    join3("lib", lib_name, ".so.1"), false);
                push_candidate(&mut v, join3("lib", lib_name, ".so.0"),
                    join3("lib", lib_name, ".so.0"), false);
                push_candidate(&mut v, join3("lib", lib_name, ".so"),
                    join3("lib", lib_name, ".so"), false);
                push_candidate(&mut v, join3("lib", lib_name, ".a"), join3("lib", lib_name, ".a"),
                    true);
            },
            TargetPlatform::MacOS => {
                push_candidate(&mut v, join3("lib", lib_name, ".dylib"),
                    join3("lib", lib_name, ".dylib"), false);
                push_candidate(&mut v, join3("lib", lib_name, ".tbd"),
                    join3("lib", lib_name, ".dylib"), false);
                push_candidate(&mut v, join3("lib", lib_name, ".a"), join3("lib", lib_name, ".a"),
                    true);
            },
            TargetPlatform::Windows => {
                push_candidate(&mut v, join2(lib_name, ".lib"), join2(lib_name, ".dll"), false);
                push_candidate(&mut v, join3("lib", lib_name, ".lib"), join2(lib_name, ".dll"),
                    false);
                push_candidate(&mut v, join2(lib_name, ".dll"), join2(lib_name, ".dll"), false);
            },
        }
        assert(model::views(v@) =~= candidates_of(self.platform, lib_name@));
        v
    }

    /// The name under which a library is expected at run time, whether or not it is there now.
    pub fn expected_soname(&self, lib_name: &str) -> (r: String)
        ensures
            r@ == soname_of(self.platform, lib_name@),
    {
        match self.platform {
            TargetPlatform::Linux => join3("lib", lib_name, ".so.6"),
            TargetPlatform::MacOS => join3("lib", lib_name, ".dylib"),
            TargetPlatform::Windows => join2(lib_name, ".dll"),
        }
    }

    /// The files to look for, by precedence: all candidates in the first directory, then those in
    /// the second, and so on.
    pub fn probe_paths(&self, lib_name: &str) -> (r: Vec<String>)
        ensures
            model::views(r@) == probes_of(
                self.platform,
                model::views(self.search_paths@),
                candidates_of(self.platform, lib_name@),
            ),
    {
        broadcast use model::group_views;
        let candidates = self.candidates(lib_name);
        let ghost cs = model::views(candidates@);
        let ghost dirs = model::views(self.search_paths@);
        let ghost all = probes_of(self.platform, dirs, cs);
        let m: usize = candidates.len();
        let mut out: Vec<String> = Vec::new();
        let mut d: usize = 0;
        while d < self.search_paths.len()
            invariant
                d <= self.search_paths@.len(),
                m == candidates@.len(),
                m > 0,
                cs == model::views(candidates@),
                dirs == model::views(self.search_paths@),
                all == probes_of(self.platform, dirs, cs),
                out@.len() == d * m,
                forall|k: int| 0 <= k < d * m ==> model::views(out@)[k] == #[trigger] all[k],
            decreases self.search_paths@.len() - d,
        {
            let mut c: usize = 0;
            proof {
                assert(d * m + m <= dirs.len() * m) by (nonlinear_arith)
                    requires
                        d < dirs.len(),
                ;
            }
            while c < m
                invariant
                    c <= m,
                    d < self.search_paths@.len(),
                    m == candidates@.len(),
                    m > 0,
                    cs == model::views(candidates@),
                    dirs == model::views(self.search_paths@),
                    all == probes_of(self.platform, dirs, cs),
                    d * m + m <= dirs.len() * m,
                    out@.len() == d * m + c,
                    forall|k: int| 0 <= k < d * m + c ==> model::views(out@)[k]
                        == #[trigger] all[k],
                decreases m - c,
            {
                broadcast use model::group_views;
                let path = join_path(self.platform, self.search_paths[d].as_str(),
                    candidates[c].0.as_str());
                proof {
                    let k = d * m + c;
                    assert(k / (m as int) == d && k % (m as int) == c) by (nonlinear_arith)
                        requires
                            k == d * m + c,
                            0 <= c < m,
                    ;
                    assert(dirs[d as int] == self.search_paths@[d as int]@);
                    assert(cs[c as int] == candidates@[c as int]@);
                    assert(all[k] == path@);
                }
                out.push(path);
                c = c + 1;
            }
            proof {
                assert((d + 1) * m == d * m + m) by (nonlinear_arith);
            }
            d = d + 1;
        }
        assert(model::views(out@) =~= all);
        out
    }

    /// The library that `-l` with this name stands for, where `present` tells of each of the
    /// files in [`Self::probe_paths`] whether it is there. Files that it does not reach are not.
    pub fn resolve(&self, lib_name: &str, present: &[bool]) -> (r: Option<ResolvedLibrary>)
        ensures
            model::view_opt(r) == found_library(
                self.platform,
                model::views(self.search_paths@),
                candidates_of(self.platform, lib_name@),
                present@,
            ),
    {
        let n: usize = present.len();
        let mut k: usize = 0;
        while k < n && !present[k]
            invariant
                k <= n,
                n == present@.len(),
                first_present(present@, 0) == first_present(present@, k as nat),
            decreases n - k,
        {
            k = k + 1;
        }
        let probes = self.probe_paths(lib_name);
        let ghost dirs = model::views(self.search_paths@);
        let ghost cs = candidates_of(self.platform, lib_name@);
        assert(first_present(present@, k as nat) == k);
        assert(model::views(probes@) == probes_of(self.platform, dirs, cs));
        assert(probes@.len() == model::views(probes@).len());
        assert(probes_of(self.platform, dirs, cs).len() == dirs.len() * cs.len());
        if k >= n || k >= probes.len() {
            return None;
        }
        let candidates = self.candidates(lib_name);
        let c: usize = k % candidates.len();
        assert(cs[c as int] == candidates@[c as int]@);
        assert(model::views(probes@)[k as int] == probes@[k as int]@);
        Some(
            ResolvedLibrary {
                path: probes[k].clone(),
                soname: candidates[c].1.clone(),
                is_static: candidates[c].2,
            },
        )
    }
}

/// A directory that is added is searched before all others: the first files to look for are the
/// candidates in it.
pub proof fn law_added_directory_comes_first(
    platform: TargetPlatform,
    dir: Seq<char>,
    dirs: Seq<Seq<char>>,
    candidates: Seq<Candidate>,
    c: int,
)
    requires
        0 <= c < candidates.len(),
    ensures
        probes_of(platform, seq![dir] + dirs, candidates).len() > c,
        probes_of(platform, seq![dir] + dirs, candidates)[c] == joined(platform, dir, candidates[c].0),
{
    let m = candidates.len() as int;
    let n = (seq![dir] + dirs).len() as int;
    assert(c / m == 0 && c % m == c && c < n * m) by (nonlinear_arith)
        requires
            0 <= c < m,
            n >= 1,
    ;
}

proof fn lemma_first_present(present: Seq<bool>, i: nat, k: nat)
    requires
        i <= k < present.len(),
        present[k as int],
        forall|j: int| i <= j < k ==> !present[j],
    ensures
        first_present(present, i) == k,
    decreases k - i,
{
    if i < k {
        lemma_first_present(present, i + 1, k);
    }
}

/// The library is the first candidate, in the first directory, that is there: one in an earlier
/// directory comes before all those in later ones, and in a directory an earlier candidate before
/// later ones.
pub proof fn law_first_library_is_taken(
    platform: TargetPlatform,
    dirs: Seq<Seq<char>>,
    candidates: Seq<Candidate>,
    present: Seq<bool>,
    d: int,
    c: int,
)
    requires
        0 <= d < dirs.len(),
        0 <= c < candidates.len(),
        d * candidates.len() + c < present.len(),
        present[d * candidates.len() + c],
        forall|k: int| 0 <= k < d * candidates.len() + c ==> !present[k],
    ensures
        found_library(platform, dirs, candidates, present) == Some(
            LibraryModel {
                path: joined(platform, dirs[d], candidates[c].0),
                soname: candidates[c].1,
                is_static: candidates[c].2,
            },
        ),
{
    let m = candidates.len() as int;
    let n = dirs.len() as int;
    let k = d * m + c;
    assert(0 <= k < n * m && k / m == d && k % m == c) by (nonlinear_arith)
        requires
            k == d * m + c,
            0 <= c < m,
            0 <= d < n,
    ;
    lemma_first_present(present, 0, k as nat);
}

/// Shared libraries are looked for before static ones, and the name under which a library is
/// expected at run time is that of the first file that is looked for.
pub proof fn law_shared_files_come_first(
    platform: TargetPlatform,
    name: Seq<char>,
    i: int,
    j: int,
)
    requires
        0 <= i < j < candidates_of(platform, name).len(),
    ensures
        candidates_of(platform, name)[i].2 ==> candidates_of(platform, name)[j].2,
        candidates_of(platform, name)[0].1 == soname_of(platform, name),
        !candidates_of(platform, name)[0].2,
{
}

/// On macOS and Windows the directories that the host has besides are all searched, in their order,
/// and on Windows the system's own directory after them. On Linux the places are fixed, and the
/// last three are the same for all architectures.
pub proof fn law_found_directories_are_searched(
    arch: TargetArch,
    platform: TargetPlatform,
    found: Seq<Seq<char>>,
    system: Option<Seq<char>>,
)
    ensures
        ({
            let dirs = search_dirs(arch, platform, found, system);
            let own = dirs.len() - found.len();
            &&& platform == TargetPlatform::MacOS ==> dirs.subrange(own, dirs.len() as int) == found
            &&& platform == TargetPlatform::Windows ==> own == 1 && dirs.subrange(
                0,
                found.len() as int,
            ) == found && (system is Some ==> dirs.last() == system->0)
            &&& platform == TargetPlatform::Linux ==> {
                &&& dirs == search_dirs(arch, platform, seq![], None)
                &&& forall|other: TargetArch, i: int|
                    0 <= i < 3 ==> #[trigger] search_dirs(other, platform, found, system).reverse()[i]
                        == dirs.reverse()[i]
            }
        }),
{
    let dirs = search_dirs(arch, platform, found, system);
    let own = dirs.len() - found.len();
    if platform == TargetPlatform::MacOS {
        assert(dirs.subrange(own, dirs.len() as int) =~= found);
    } else if platform == TargetPlatform::Windows {
        assert(dirs.subrange(0, found.len() as int) =~= found);
    }
}

} // verus!
