//! From the files of a link to the bytes of an executable.
use vstd::prelude::*;
use vstd::string::*;
use crate::arch;
use crate::arch::TargetArch;
use crate::bytes;
use crate::bytes::push_u32;
use crate::cli::{ArgsModel, ParsedArgs};
use crate::coff;
use crate::coff::is_coff;
use crate::emit;
use crate::emit::coff_link;
use crate::emit::coff_link::link_and_emit_pe_from_coff;
use crate::emit::elf::{emit_elf_executable, emit_elf_executable_dynamic};
use crate::emit::macho_dynamic;
use crate::emit::macho_dynamic::emit_macho_executable_dynamic;
use crate::emit::pe;
use crate::emit::pe::emit_pe_executable;
use crate::link;
use crate::link::{
    DynamicLinkInfo, DynamicModel, LinkModel, LinkResult, MergedModel, MergedSection,
    push_section,
};
use crate::link::dynamic;
use crate::link::dynamic::low_difference;
use crate::link::elf_link;
use crate::link::elf_link::{RequestModel, RequestedLibrary, link_multi_object};
use crate::link::macho::link_macho_multi_object;
use crate::model;
use crate::object;
use crate::object::{
    InputFile, InputModel, ObjectFormat, load_elf_objects, load_macho_objects, load_objects,
};
use crate::platform::TargetPlatform;
use crate::segment;
use crate::segment::checked_align_up;
use crate::text::str_eq;

verus! {

pub const ELFOSABI_NONE: u8 = 0;

pub const ELFOSABI_FREEBSD: u8 = 9;

/// The number of an operating system in the header of ELF files.
pub open spec fn os_abi(target_os: Option<Seq<char>>) -> u8 {
    match target_os {
        Some(os) => if os == "orbis"@ || os == "ps4"@ || os == "prospero"@ || os == "ps5"@ || os
            == "freebsd"@ {
            ELFOSABI_FREEBSD
        } else {
            ELFOSABI_NONE
        },
        None => ELFOSABI_NONE,
    }
}

/// The number of an operating system in the header of ELF files.
pub fn os_abi_for_target(target_os: Option<&str>) -> (r: u8)
    ensures
        r == os_abi(
            match target_os {
                Some(s) => Some(s@),
                None => None,
            },
        ),
{
    match target_os {
        Some(os) => if str_eq(os, "orbis") || str_eq(os, "ps4") || str_eq(os, "prospero") || str_eq(
            os,
            "ps5",
        ) || str_eq(os, "freebsd") {
            ELFOSABI_FREEBSD
        } else {
            ELFOSABI_NONE
        },
        None => ELFOSABI_NONE,
    }
}

/// The entry point of an image: the symbol that is asked for, or else `main`, `_main`, `_start`,
/// or the start of a leading section with code.
pub open spec fn entry_of(wanted: Option<Seq<char>>, m: LinkModel) -> Option<u64> {
    let names = m.symbol_addrs;
    if wanted is Some && names.dom().contains(wanted->0) {
        Some(names[wanted->0])
    } else if names.dom().contains("main"@) {
        Some(names["main"@])
    } else if names.dom().contains("_main"@) {
        Some(names["_main"@])
    } else if names.dom().contains("_start"@) {
        Some(names["_start"@])
    } else if m.layout.sections.len() > 0 && m.layout.sections[0].name == ".text"@ {
        Some(m.layout.sections[0].vaddr)
    } else {
        None
    }
}

/// The entry point of an image, where `entry` names the symbol that is asked for.
pub fn select_entry(entry: Option<&String>, result: &LinkResult) -> (r: Option<u64>)
    ensures
        r == entry_of(
            (match entry {
                Some(s) => Some(s@),
                None => None,
            }),
            result@,
        ),
{
    if let Some(s) = entry {
        if let Some(a) = result.symbol_addrs.get(s.as_str()) {
            return Some(*a);
        }
    }
    if let Some(a) = result.symbol_addrs.get("main") {
        return Some(*a);
    }
    if let Some(a) = result.symbol_addrs.get("_main") {
        return Some(*a);
    }
    if let Some(a) = result.symbol_addrs.get("_start") {
        return Some(*a);
    }
    if result.layout.sections.len() > 0 {
        assert(result@.layout.sections[0] == result.layout.sections@[0]@);
        if str_eq(result.layout.sections[0].name.as_str(), ".text") {
            return Some(result.layout.sections[0].vaddr);
        }
    }
    None
}

/// Whether nothing defines `_start`, so that the linker must provide what calls `main`.
pub fn needs_synthetic_start(result: &LinkResult) -> (r: bool)
    ensures
        r == !result@.symbol_addrs.dom().contains("_start"@),
{
    !result.symbol_addrs.contains_key("_start")
}

/// The code that calls `main` and ends the process with what it returns. It stands at `start`.
pub open spec fn start_code(main: u64, start: u64, freebsd: bool) -> Seq<u8> {
    seq![0xe8u8] + bytes::le32(dynamic::rel32(main as int, start + 5))
        + seq![0x48u8, 0x89u8, 0xc7u8, 0xb8u8] + bytes::le32(
        if freebsd {
            1
        } else {
            60
        },
    ) + seq![0x0fu8, 0x05u8]
}

/// The address of `main`.
pub open spec fn main_addr(names: Map<Seq<char>, u64>) -> Option<u64> {
    if names.dom().contains("main"@) {
        Some(names["main"@])
    } else if names.dom().contains("_main"@) {
        Some(names["_main"@])
    } else {
        None
    }
}

/// `m` with code behind its last section that calls `main`; none where it is not for x86-64, has
/// no `main`, or has it too far away.
pub open spec fn with_start(m: LinkModel, freebsd: bool) -> Option<LinkModel> {
    let l = m.layout;
    let end = link::section_end(l.sections.last());
    let start = segment::aligned(end as u64, 16);
    match main_addr(m.symbol_addrs) {
        Some(main) => if arch::arch_of_machine(m.e_machine) == Some(TargetArch::X86_64)
            && l.sections.len() > 0 && end <= u64::MAX && segment::align_fits(end as u64, 16)
                && start + 15
            <= u64::MAX && -0x8000_0000 <= main - (start + 5) < 0x8000_0000 {
            Some(
                LinkModel {
                    layout: link::with_section(
                        l,
                        MergedModel {
                            name: ".text.__weld_start"@,
                            data: start_code(main, start, freebsd),
                            vaddr: start,
                            flags: 6,
                            align: 16,
                        },
                    ),
                    ..m
                },
            )
        } else {
            None
        },
        None => None,
    }
}

/// Adds code that calls `main` and ends the process with what it returns. `freebsd_abi` selects
/// the number of the system call. Returns its address.
pub fn synthesize_elf_start_x86_64(result: &mut LinkResult, freebsd_abi: bool) -> (r: Option<u64>)
    ensures
        match with_start(old(result)@, freebsd_abi) {
            Some(m) => r == Some(m.layout.sections.last().vaddr) && final(result)@ == m,
            None => r is None && final(result)@ == old(result)@,
        },
        link::layout_ok(old(result)@.layout) ==> link::layout_ok(final(result)@.layout),
{
    broadcast use bytes::group_le_len;
    match TargetArch::from_elf_machine(result.e_machine) {
        Some(TargetArch::X86_64) => {},
        _ => {
            return None;
        },
    }
    let main: u64 = match result.symbol_addrs.get("main") {
        Some(a) => *a,
        None => match result.symbol_addrs.get("_main") {
            Some(a) => *a,
            None => {
                return None;
            },
        },
    };
    let n: usize = result.layout.sections.len();
    assert(result@.layout.sections.len() == n);
    if n == 0 {
        return None;
    }
    let ghost l = result@.layout;
    assert(l.sections.last() == result.layout.sections@[n - 1]@);
    let vaddr: u64 = result.layout.sections[n - 1].vaddr;
    let len: u64 = result.layout.sections[n - 1].data.len() as u64;
    if len > u64::MAX - vaddr {
        return None;
    }
    let start: u64 = match checked_align_up(vaddr + len, 16) {
        Some(v) => v,
        None => {
            return None;
        },
    };
    if start > u64::MAX - 15 {
        return None;
    }
    let next: u64 = start + 5;
    let near: bool = if main >= next {
        main - next < 0x8000_0000
    } else {
        next - main <= 0x8000_0000
    };
    if !near {
        return None;
    }
    let mut code: Vec<u8> = Vec::new();
    code.push(0xe8);
    push_u32(&mut code, low_difference(main, next));
    code.push(0x48);
    code.push(0x89);
    code.push(0xc7);
    code.push(0xb8);
    push_u32(
        &mut code,
        if freebsd_abi {
            1
        } else {
            60
        },
    );
    code.push(0x0f);
    code.push(0x05);
    assert(code@ =~= start_code(main, start, freebsd_abi));
    push_section(
        &mut result.layout,
        MergedSection {
            name: ".text.__weld_start".to_string(),
            data: code,
            vaddr: start,
            flags: 6,
            align: 16,
        },
    );
    proof {
        segment::law_align_up_bounds((vaddr + len) as u64, 16);
        if link::layout_ok(l) {
            assert forall|i: int| 0 <= i < l.sections.len() implies link::section_end(
                #[trigger] l.sections[i],
            ) <= start by {
                if i < l.sections.len() - 1 {
                    assert(link::section_end(l.sections[i]) <= l.sections[l.sections.len() - 1].vaddr);
                }
            }
            link::lemma_with_section_ok(l, result@.layout.sections.last());
        }
    }
    Some(start)
}

/// The call in the start code lands on `main`, and the code is fifteen bytes long.
pub proof fn law_start_calls_main(main: u64, start: u64, freebsd: bool)
    requires
        -0x8000_0000 <= main - (start + 5) < 0x8000_0000,
    ensures
        start_code(main, start, freebsd).len() == 15,
        start_code(main, start, freebsd)[0] == 0xe8,
        start + 5 + bytes::signed32(bytes::u32_at(start_code(main, start, freebsd), 1)) == main,
{
    broadcast use bytes::group_le_len;
    let code = start_code(main, start, freebsd);
    let rel = dynamic::rel32(main as int, start + 5);
    assert(code.subrange(1, 5) =~= bytes::le32(rel));
    bytes::lemma_read_u32(code, 1, rel);
}

/// Where a link runs: the CPU type of universal files to take, and the platform whose libraries
/// are linked.
#[derive(Debug, Clone, Copy)]
pub struct Host {
    pub cputype: Option<u32>,
    pub platform: TargetPlatform,
}

/// `m` with another dynamic linker, where one is asked for.
pub open spec fn with_interpreter(m: LinkModel, path: Option<Seq<char>>) -> LinkModel {
    match (m.dynamic, path) {
        (Some(d), Some(p)) => LinkModel {
            dynamic: Some(DynamicModel { interpreter: Some(p), ..d }),
            ..m
        },
        _ => m,
    }
}

fn set_interpreter(result: &mut LinkResult, path: Option<&String>)
    ensures
        final(result)@ == with_interpreter(
            old(result)@,
            (match path {
                Some(p) => Some(p@),
                None => None,
            }),
        ),
{
    if let Some(p) = path {
        if let Some(d) = &mut result.dynamic {
            d.interpreter = Some(p.clone());
        }
    }
}

/// The requested libraries, where there are any.
pub open spec fn requested(libs: Seq<RequestModel>) -> Option<Seq<RequestModel>> {
    if libs.len() == 0 {
        None
    } else {
        Some(libs)
    }
}

/// An ELF image and its entry point: code that calls `main` where nothing defines `_start`.
pub open spec fn started(m: LinkModel, a: ArgsModel) -> Option<(LinkModel, u64)> {
    let freebsd = os_abi(a.target_os) == ELFOSABI_FREEBSD;
    let plain = match entry_of(a.entry, m) {
        Some(e) => Some((m, e)),
        None => None,
    };
    if m.symbol_addrs.dom().contains("_start"@) {
        plain
    } else {
        match with_start(m, freebsd) {
            Some(s) => Some((s, s.layout.sections.last().vaddr)),
            None => plain,
        }
    }
}

/// The bytes of an ELF executable.
pub open spec fn elf_bytes(m: LinkModel, arch: TargetArch, entry: u64, abi: u8) -> Option<Seq<u8>> {
    match m.dynamic {
        Some(d) => match emit::elf::dynamic_executable_bytes(m.layout, arch, entry, d.interpreter) {
            Ok(b) => Some(b.update(7, abi)),
            Err(_) => None,
        },
        None => Some(emit::elf::executable_bytes(m.layout, arch, entry).update(7, abi)),
    }
}

/// The ELF executable for some ELF files.
pub open spec fn elf_output(
    files: Seq<InputModel>,
    libs: Seq<RequestModel>,
    host: Host,
    a: ArgsModel,
) -> Option<Seq<u8>> {
    match object::elf_files(files, host.cputype) {
        None => None,
        Some(datas) => match elf_link::elf_link(datas, requested(libs), host.platform) {
            Err(_) => None,
            Ok(m) => match arch::arch_of_machine(m.e_machine) {
                None => None,
                Some(arch) => match started(with_interpreter(m, a.dynamic_linker), a) {
                    None => None,
                    Some((s, entry)) => elf_bytes(s, arch, entry, os_abi(a.target_os)),
                },
            },
        },
    }
}

/// A file is at least as long as its header.
proof fn lemma_elf_bytes_len(m: LinkModel, arch: TargetArch, entry: u64)
    ensures
        emit::elf::executable_bytes(m.layout, arch, entry).len() >= 64,
        m.dynamic matches Some(d) ==> (emit::elf::dynamic_executable_bytes(
            m.layout,
            arch,
            entry,
            d.interpreter,
        ) matches Ok(b) ==> b.len() >= 64),
{
    broadcast use bytes::group_le_len;
}

fn slices(objects: &Vec<Vec<u8>>) -> (r: Vec<&[u8]>)
    ensures
        model::contents(r@) == object::object_bytes(objects@),
        r@.len() == objects@.len(),
{
    let mut out: Vec<&[u8]> = Vec::new();
    let mut i: usize = 0;
    while i < objects.len()
        invariant
            i <= objects@.len(),
            out@.len() == i,
            forall|k: int| 0 <= k < i ==> (#[trigger] out@[k])@ == objects@[k]@,
        decreases objects@.len() - i,
    {
        out.push(objects[i].as_slice());
        i = i + 1;
    }
    assert(model::contents(out@) =~= object::object_bytes(objects@));
    out
}

fn emit_elf(result: &LinkResult, arch: TargetArch, entry: u64, abi: u8) -> (r: Option<Vec<u8>>)
    requires
        link::layout_ok(result@.layout),
    ensures
        model::view_opt(r) == elf_bytes(result@, arch, entry, abi),
{
    let mut out: Vec<u8> = Vec::new();
    proof {
        segment::lemma_ascending_has_image(result@.layout);
        lemma_elf_bytes_len(result@, arch, entry);
    }
    match &result.dynamic {
        Some(d) => {
            if emit_elf_executable_dynamic(&result.layout, arch, entry, d, &mut out).is_err() {
                return None;
            }
            assert(out@ =~= emit::elf::dynamic_executable_bytes(
                result@.layout,
                arch,
                entry,
                d@.interpreter,
            )->Ok_0);
        },
        None => {
            let _done = emit_elf_executable(&result.layout, arch, entry, &mut out);
            assert(out@ =~= emit::elf::executable_bytes(result@.layout, arch, entry));
        },
    }
    out[7] = abi;
    Some(out)
}

fn abi_of_args(args: &ParsedArgs) -> (r: u8)
    ensures
        r == os_abi(args@.target_os),
{
    match &args.target_os {
        Some(s) => os_abi_for_target(Some(s.as_str())),
        None => os_abi_for_target(None),
    }
}

/// Links ELF files into an ELF executable.
pub fn link_elf_files(
    files: &[InputFile],
    libs: &[RequestedLibrary],
    host: Host,
    args: &ParsedArgs,
) -> (r: Option<Vec<u8>>)
    ensures
        model::view_opt(r) == elf_output(model::views(files@), model::views(libs@), host, args@),
{
    let datas = match load_elf_objects(files, host.cputype) {
        Some(v) => v,
        None => {
            return None;
        },
    };
    let refs = slices(&datas);
    assert(model::views(libs@).len() == libs@.len());
    let wanted: Option<&[RequestedLibrary]> = if libs.len() == 0 {
        None
    } else {
        Some(libs)
    };
    let mut result = match link_multi_object(refs.as_slice(), wanted, host.platform) {
        Ok(m) => m,
        Err(_) => {
            return None;
        },
    };
    let arch = match TargetArch::from_elf_machine(result.e_machine) {
        Some(a) => a,
        None => {
            return None;
        },
    };
    set_interpreter(&mut result, args.dynamic_linker.as_ref());
    let abi: u8 = abi_of_args(args);
    let mut entry: Option<u64> = None;
    if needs_synthetic_start(&result) {
        entry = synthesize_elf_start_x86_64(&mut result, abi == ELFOSABI_FREEBSD);
    }
    if entry.is_none() {
        entry = select_entry(args.entry.as_ref(), &result);
    }
    match entry {
        Some(e) => emit_elf(&result, arch, e, abi),
        None => None,
    }
}

/// What an image that imports nothing still needs: the library of the system.
pub open spec fn system_library() -> DynamicModel {
    DynamicModel {
        needed: seq!["/usr/lib/libSystem.B.dylib"@],
        plt_symbols: seq![],
        weak_plt_symbols: seq![],
        interpreter: None,
        macho_rebase_addrs: seq![],
        macho_direct_binds: seq![],
    }
}

/// What linking Mach-O objects gives.
pub open spec fn macho_link(datas: Seq<Seq<u8>>, with_libs: bool, dylibs: Seq<Seq<char>>) -> Result<
    LinkModel,
    Seq<char>,
> {
    if datas.len() == 0 {
        Err("no objects to link"@)
    } else if datas.len() == 1 && !with_libs {
        link::macho::single_link(datas[0])
    } else {
        link::macho::multi_link(datas, dylibs)
    }
}

/// The Mach-O executable for some files.
pub open spec fn macho_output(files: Seq<InputModel>, host: Host, a: ArgsModel) -> Option<Seq<u8>> {
    match object::loaded_macho(files, host.cputype) {
        None => None,
        Some((objects, dylibs)) => match macho_link(objects, a.libraries.len() > 0, dylibs) {
            Err(_) => None,
            Ok(m) => match (arch::arch_of_machine(m.e_machine), entry_of(a.entry, m)) {
                (Some(arch), Some(entry)) => match macho_dynamic::dynamic_macho(
                    m.layout,
                    arch,
                    entry,
                    match m.dynamic {
                        Some(d) => d,
                        None => system_library(),
                    },
                ) {
                    Ok(b) => Some(b),
                    Err(_) => None,
                },
                _ => None,
            },
        },
    }
}

fn input_paths(files: &[InputFile]) -> (r: Vec<String>)
    ensures
        r@.len() == files@.len(),
        forall|i: int| 0 <= i < files@.len() ==> (#[trigger] r@[i])@ == files@[i]@.path,
{
    let mut out: Vec<String> = Vec::new();
    let mut i: usize = 0;
    while i < files.len()
        invariant
            i <= files@.len(),
            out@.len() == i,
            forall|k: int| 0 <= k < i ==> (#[trigger] out@[k])@ == files@[k]@.path,
        decreases files@.len() - i,
    {
        out.push(files[i].path.clone());
        i = i + 1;
    }
    out
}

fn link_macho(
    files: &[InputFile],
    objects: &Vec<Vec<u8>>,
    libs: Option<&[String]>,
    dylibs: &Vec<String>,
) -> (r: Result<LinkResult, String>)
    ensures
        model::outcome(r) == macho_link(object::object_bytes(objects@), libs is Some,
            model::views(dylibs@)),
        r is Ok ==> link::layout_ok(r->Ok_0.layout@),
{
    let refs = slices(objects);
    let paths = input_paths(files);
    assert(model::contents(refs@).len() == refs@.len());
    assert(refs@.len() > 0 ==> model::contents(refs@)[0] == refs@[0]@);
    link_macho_multi_object(refs.as_slice(), libs, dylibs.as_slice(), paths.as_slice())
}

/// Links Mach-O files into a Mach-O executable.
pub fn link_macho_files(files: &[InputFile], host: Host, args: &ParsedArgs) -> (r: Option<Vec<u8>>)
    ensures
        model::view_opt(r) == macho_output(model::views(files@), host, args@),
{
    broadcast use model::group_views;
    let (objects, dylibs) = match load_macho_objects(files, host.cputype) {
        Some(l) => l,
        None => {
            return None;
        },
    };
    assert(args@.libraries.len() == args.libraries@.len());
    let libs: Option<&[String]> = if args.libraries.len() == 0 {
        None
    } else {
        Some(args.libraries.as_slice())
    };
    let result = match link_macho(files, &objects, libs, &dylibs) {
        Ok(m) => m,
        Err(_) => {
            return None;
        },
    };
    let arch = match TargetArch::from_elf_machine(result.e_machine) {
        Some(a) => a,
        None => {
            return None;
        },
    };
    let entry: u64 = match select_entry(args.entry.as_ref(), &result) {
        Some(e) => e,
        None => {
            return None;
        },
    };
    let mut fallback = DynamicLinkInfo::default();
    fallback.needed.push("/usr/lib/libSystem.B.dylib".to_string());
    assert(fallback@.needed =~= system_library().needed);
    let dyn_info: &DynamicLinkInfo = match &result.dynamic {
        Some(d) => d,
        None => &fallback,
    };
    proof {
        macho_dynamic::lemma_parts_have_images(result@.layout);
    }
    let mut out: Vec<u8> = Vec::new();
    let done = emit_macho_executable_dynamic(&result.layout, arch, entry, dyn_info, &mut out);
    if done.is_err() {
        return None;
    }
    assert(out@ =~= macho_dynamic::dynamic_macho(result@.layout, arch, entry, dyn_info@)->Ok_0);
    Some(out)
}

/// The Windows executable for some files: a COFF object, or ELF files.
pub open spec fn pe_output(
    files: Seq<InputModel>,
    libs: Seq<RequestModel>,
    host: Host,
    a: ArgsModel,
) -> Option<Seq<u8>> {
    if files.len() > 0 && coff::coff_object(files[0].data) {
        match coff_link::coff_executable(files[0].data) {
            Ok(b) => Some(b),
            Err(_) => None,
        }
    } else {
        match object::elf_files(files, host.cputype) {
            None => None,
            Some(datas) => match elf_link::elf_link(datas, requested(libs), host.platform) {
                Err(_) => None,
                Ok(m) => match entry_of(a.entry, with_interpreter(m, a.dynamic_linker)) {
                    None => None,
                    Some(entry) => match pe::pe_executable(
                        m.layout,
                        entry,
                        with_interpreter(m, a.dynamic_linker).dynamic,
                    ) {
                        Ok(b) => Some(b),
                        Err(_) => None,
                    },
                },
            },
        }
    }
}

/// Links a COFF object, or ELF files, into a Windows executable.
pub fn link_pe_files(
    files: &[InputFile],
    libs: &[RequestedLibrary],
    host: Host,
    args: &ParsedArgs,
) -> (r: Option<Vec<u8>>)
    ensures
        model::view_opt(r) == pe_output(model::views(files@), model::views(libs@), host, args@),
{
    let mut out: Vec<u8> = Vec::new();
    assert(model::views(files@).len() == files@.len());
    if files.len() > 0 {
        assert(model::views(files@)[0] == files@[0]@);
        if is_coff(files[0].data.as_slice()) {
            if link_and_emit_pe_from_coff(files[0].data.as_slice(), &mut out).is_err() {
                return None;
            }
            assert(out@ =~= coff_link::coff_executable(files@[0].data@)->Ok_0);
            return Some(out);
        }
    }
    let datas = match load_elf_objects(files, host.cputype) {
        Some(v) => v,
        None => {
            return None;
        },
    };
    let refs = slices(&datas);
    assert(model::views(libs@).len() == libs@.len());
    let wanted: Option<&[RequestedLibrary]> = if libs.len() == 0 {
        None
    } else {
        Some(libs)
    };
    let mut result = match link_multi_object(refs.as_slice(), wanted, host.platform) {
        Ok(m) => m,
        Err(_) => {
            return None;
        },
    };
    set_interpreter(&mut result, args.dynamic_linker.as_ref());
    let entry: u64 = match select_entry(args.entry.as_ref(), &result) {
        Some(e) => e,
        None => {
            return None;
        },
    };
    if emit_pe_executable(&result.layout, entry, result.dynamic.as_ref(), &mut out).is_err() {
        return None;
    }
    assert(out@ =~= pe::pe_executable(result@.layout, entry, result@.dynamic)->Ok_0);
    Some(out)
}

/// The executable for some files: a Windows one where `wants_pe` holds, or else one of the format
/// of the objects.
pub open spec fn link_output(
    files: Seq<InputModel>,
    libs: Seq<RequestModel>,
    host: Host,
    wants_pe: bool,
    a: ArgsModel,
) -> Option<Seq<u8>> {
    if files.len() == 0 {
        None
    } else if wants_pe {
        pe_output(files, libs, host, a)
    } else {
        match object::loaded(files, host.cputype) {
            None => None,
            Some((f, _, _)) => match f {
                ObjectFormat::Elf => elf_output(files, libs, host, a),
                ObjectFormat::MachO => macho_output(files, host, a),
                ObjectFormat::Coff => pe_output(files, libs, host, a),
            },
        }
    }
}

/// Whether the extension of the output file asks for a Windows executable, in small letters or
/// capitals.
pub open spec fn asks_for_pe(extension: Option<Seq<char>>) -> bool {
    match extension {
        Some(e) => e.len() == 3 && (e[0] == 'e' || e[0] == 'E') && (e[1] == 'x' || e[1] == 'X')
            && (e[2]
            == 'e' || e[2] == 'E'),
        None => false,
    }
}

/// Whether the extension of the output file asks for a Windows executable.
pub fn wants_pe(extension: Option<&str>) -> (r: bool)
    ensures
        r == asks_for_pe(
            (match extension {
                Some(e) => Some(e@),
                None => None,
            }),
        ),
{
    match extension {
        Some(e) => {
            if e.unicode_len() != 3 {
                return false;
            }
            let a: char = e.get_char(0);
            let b: char = e.get_char(1);
            let c: char = e.get_char(2);
            (a == 'e' || a == 'E') && (b == 'x' || b == 'X') && (c == 'e' || c == 'E')
        },
        None => false,
    }
}

/// An executable and the format of its objects.
pub struct Output {
    pub format: ObjectFormat,
    pub bytes: Vec<u8>,
}

/// Links files into an executable: a Windows one where `wants_pe` holds, or else one of the
/// format of the objects.
pub fn link_files(
    files: &[InputFile],
    libs: &[RequestedLibrary],
    host: Host,
    wants_pe: bool,
    args: &ParsedArgs,
) -> (r: Option<Output>)
    ensures
        (match r {
            Some(o) => Some(o.bytes@),
            None => None,
        }) == link_output(model::views(files@), model::views(libs@), host, wants_pe, args@),
        r matches Some(o) ==> o.format == if wants_pe {
            ObjectFormat::Coff
        } else {
            (object::loaded(model::views(files@), host.cputype)->0).0
        },
{
    assert(model::views(files@).len() == files@.len());
    if files.len() == 0 {
        return None;
    }
    let format = if wants_pe {
        ObjectFormat::Coff
    } else {
        match load_objects(files, host.cputype) {
            Some((f, _, _)) => f,
            None => {
                return None;
            },
        }
    };
    let bytes = match format {
        ObjectFormat::Elf => link_elf_files(files, libs, host, args),
        ObjectFormat::MachO => link_macho_files(files, host, args),
        ObjectFormat::Coff => link_pe_files(files, libs, host, args),
    };
    match bytes {
        Some(b) => Some(Output { format, bytes: b }),
        None => None,
    }
}

/// Why a link failed, as far as it is known.
pub open spec fn failure_of(files: Seq<InputModel>, libs: Seq<RequestModel>, host: Host) -> Option<
    Seq<char>,
> {
    match object::loaded(files, host.cputype) {
        None => Some("could not read the input objects"@),
        Some((f, objects, dylibs)) => match f {
            ObjectFormat::Elf => match elf_link::elf_link(objects, Some(libs), host.platform) {
                Ok(_) => None,
                Err(e) => Some(e),
            },
            ObjectFormat::MachO => match macho_link(objects, true, dylibs) {
                Ok(_) => None,
                Err(e) => Some(e),
            },
            ObjectFormat::Coff => Some("COFF/PE linking not yet implemented"@),
        },
    }
}

/// Why a link failed, as far as it is known.
pub fn explain_failure(
    files: &[InputFile],
    libs: &[RequestedLibrary],
    host: Host,
    args: &ParsedArgs,
) -> (r: Option<String>)
    ensures
        model::view_opt(r) == failure_of(model::views(files@), model::views(libs@), host),
{
    match load_objects(files, host.cputype) {
        None => Some("could not read the input objects".to_string()),
        Some((f, objects, dylibs)) => match f {
            ObjectFormat::Elf => {
                let refs = slices(&objects);
                match link_multi_object(refs.as_slice(), Some(libs), host.platform) {
                    Ok(_) => None,
                    Err(e) => Some(e),
                }
            },
            ObjectFormat::MachO => match link_macho(
                files,
                &objects,
                Some(args.libraries.as_slice()),
                &dylibs,
            ) {
                Ok(_) => None,
                Err(e) => Some(e),
            },
            ObjectFormat::Coff => Some("COFF/PE linking not yet implemented".to_string()),
        },
    }
}

} // verus!
