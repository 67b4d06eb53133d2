//! What every link gives.
use vstd::prelude::*;
use crate::arch;
use crate::arch::TargetArch;
use crate::bytes;
use crate::cli::ArgsModel;
use crate::coff;
use crate::driver;
use crate::driver::Host;
use crate::emit;
use crate::emit::coff_link;
use crate::emit::macho_command_laws;
use crate::emit::macho_dynamic;
use crate::emit::macho_dynamic::DynamicImage;
use crate::emit::pe;
use crate::emit::pe::{ImportModel, PeFields, PePlan, PeSectionModel};
use crate::emit::pe_laws;
use crate::link;
use crate::link::{DynamicModel, LayoutModel, LinkModel};
use crate::link::elf_link;
use crate::link::elf_link::RequestModel;
use crate::object;
use crate::object::{InputModel, ObjectFormat};
use crate::segment;

verus! {

/// Whether a file is an ELF executable for a machine that is known, with the number of an
/// operating system.
pub open spec fn elf_image(b: Seq<u8>, abi: u8) -> bool {
    &&& crate::elf::elf_header(b) matches Ok(h) && h.e_type == 2 && arch::arch_of_machine(
        h.e_machine,
    ) is Some
    &&& b[7] == abi
}

/// Whether a file is a Mach-O executable for a CPU type that is known.
pub open spec fn macho_image(b: Seq<u8>) -> bool {
    &&& crate::macho::macho_magic(b)
    &&& bytes::u32_at(b, 12) == 2
    &&& arch::arch_of_cputype(bytes::u32_at(b, 4)) is Some
}

/// Whether a file is a Windows executable.
pub open spec fn pe_image(b: Seq<u8>) -> bool {
    exists|n: nat, entry: u32| pe_laws::pe_headers(b, n, entry)
}

proof fn lemma_elf_image(m: LinkModel, arch: TargetArch, entry: u64, abi: u8)
    ensures
        driver::elf_bytes(m, arch, entry, abi) matches Some(b) ==> elf_image(b, abi),
{
    reveal(bytes::u16_at);
    reveal(bytes::u64_at);
    if let Some(b) = driver::elf_bytes(m, arch, entry, abi) {
        let interpreter = match m.dynamic {
            Some(d) => d.interpreter,
            None => None,
        };
        emit::elf_laws::lemma_executables_have_headers(m.layout, arch, entry, interpreter);
        let n: u16 = if m.dynamic is Some {
            4
        } else {
            2
        };
        let plain = match m.dynamic {
            Some(d) => emit::elf::dynamic_executable_bytes(
                m.layout,
                arch,
                entry,
                d.interpreter,
            )->Ok_0,
            None => emit::elf::executable_bytes(m.layout, arch, entry),
        };
        assert(emit::elf_laws::executable_header(plain, arch::elf_machine(arch), entry, n));
        assert(b == plain.update(7, abi));
        arch::law_elf_machine_round_trip(arch, 0);
    }
}

proof fn lemma_macho_image(l: LayoutModel, arch: TargetArch, entry: u64, d: DynamicModel)
    ensures
        macho_dynamic::dynamic_macho(l, arch, entry, d) matches Ok(b) ==> macho_image(b),
{
    if let Ok(b) = macho_dynamic::dynamic_macho(l, arch, entry, d) {
        let m = macho_dynamic::dynamic_image(l, d);
        let cmds = macho_dynamic::dynamic_commands(l, m, d.needed, entry);
        let n = (11 + macho_dynamic::libraries(d.needed).len()) as u32;
        macho_command_laws::lemma_image_head(arch::macho_cputype(arch), n, cmds, m, entry);
        arch::law_macho_cputype_round_trip(arch, 0);
    }
}

/// The file of an image begins with its head.
pub proof fn lemma_image_file_starts(head: Seq<u8>, m: DynamicImage, entry: u64)
    ensures
        head.len() <= macho_dynamic::image_file(head, m, entry).len(),
        macho_dynamic::image_file(head, m, entry).subrange(0, head.len() as int) == head,
{
    assert(macho_dynamic::image_file(head, m, entry).subrange(0, head.len() as int) =~= head);
}

proof fn lemma_pe_image(f: PeFields, text: Seq<u8>, data: Seq<u8>, p: PePlan)
    ensures
        pe_image(pe::pe_file(f, pe::pe_sections(text, data, p))),
{
    lemma_few_sections(text, data, p);
    lemma_sections_image(f, pe::pe_sections(text, data, p));
}

proof fn lemma_few_sections(text: Seq<u8>, data: Seq<u8>, p: PePlan)
    ensures
        0 < pe::pe_sections(text, data, p).len() <= 3,
{
}

proof fn lemma_sections_image(f: PeFields, sections: Seq<PeSectionModel>)
    requires
        0 < sections.len() <= 3,
    ensures
        pe_image(pe::pe_file(f, sections)),
{
    pe_laws::lemma_pe_headers(f, sections);
    lemma_headers_image(pe::pe_file(f, sections), sections.len(), f.entry_rva);
}

proof fn lemma_headers_image(b: Seq<u8>, n: nat, entry: u32)
    requires
        pe_laws::pe_headers(b, n, entry),
    ensures
        pe_image(b),
{
}

/// What a link gives is an executable of the format of its objects, or a Windows executable where
/// one is asked for.
pub proof fn law_outputs_are_executables(
    files: Seq<InputModel>,
    libs: Seq<RequestModel>,
    host: Host,
    wants_pe: bool,
    a: ArgsModel,
)
    requires
        driver::link_output(files, libs, host, wants_pe, a) is Some,
    ensures
        ({
            let b = driver::link_output(files, libs, host, wants_pe, a)->0;
            if wants_pe {
                pe_image(b)
            } else {
                match (object::loaded(files, host.cputype)->0).0 {
                    ObjectFormat::Elf => elf_image(b, driver::os_abi(a.target_os)),
                    ObjectFormat::MachO => macho_image(b),
                    ObjectFormat::Coff => pe_image(b),
                }
            }
        }),
{
    if wants_pe {
        lemma_pe_output(files, libs, host, a);
    } else {
        match (object::loaded(files, host.cputype)->0).0 {
            ObjectFormat::Elf => {
                lemma_elf_output(files, libs, host, a);
            },
            ObjectFormat::MachO => {
                lemma_macho_output(files, host, a);
            },
            ObjectFormat::Coff => {
                lemma_pe_output(files, libs, host, a);
            },
        }
    }
}

proof fn lemma_elf_output(
    files: Seq<InputModel>,
    libs: Seq<RequestModel>,
    host: Host,
    a: ArgsModel,
)
    ensures
        driver::elf_output(files, libs, host, a) matches Some(b)
            ==> elf_image(b, driver::os_abi(a.target_os)),
{
    if let Some(b) = driver::elf_output(files, libs, host, a) {
        let datas = object::elf_files(files, host.cputype)->0;
        let m = elf_link::elf_link(datas, driver::requested(libs), host.platform)->Ok_0;
        let arch = arch::arch_of_machine(m.e_machine)->0;
        let (s, entry) = driver::started(driver::with_interpreter(m, a.dynamic_linker), a)->0;
        lemma_elf_image(s, arch, entry, driver::os_abi(a.target_os));
    }
}

proof fn lemma_macho_output(files: Seq<InputModel>, host: Host, a: ArgsModel)
    ensures
        driver::macho_output(files, host, a) matches Some(b) ==> macho_image(b),
{
    if let Some(b) = driver::macho_output(files, host, a) {
        let (objects, dylibs) = object::loaded_macho(files, host.cputype)->0;
        let m = driver::macho_link(objects, a.libraries.len() > 0, dylibs)->Ok_0;
        let arch = arch::arch_of_machine(m.e_machine)->0;
        let entry = driver::entry_of(a.entry, m)->0;
        let d = match m.dynamic {
            Some(d) => d,
            None => driver::system_library(),
        };
        lemma_macho_image(m.layout, arch, entry, d);
    }
}

proof fn lemma_pe_output(
    files: Seq<InputModel>,
    libs: Seq<RequestModel>,
    host: Host,
    a: ArgsModel,
)
    ensures
        driver::pe_output(files, libs, host, a) matches Some(b) ==> pe_image(b),
{
    if let Some(b) = driver::pe_output(files, libs, host, a) {
        if files.len() > 0 && coff::coff_object(files[0].data) {
            lemma_coff_image(files[0].data);
        } else {
            let datas = object::elf_files(files, host.cputype)->0;
            let m = elf_link::elf_link(datas, driver::requested(libs), host.platform)->Ok_0;
            let s = driver::with_interpreter(m, a.dynamic_linker);
            let entry = driver::entry_of(a.entry, s)->0;
            lemma_layout_image(m.layout, entry, s.dynamic);
        }
    }
}

proof fn lemma_coff_image(data: Seq<u8>)
    ensures
        coff_link::coff_executable(data) matches Ok(b) ==> pe_image(b),
{
    if let Ok(b) = coff_link::coff_executable(data) {
        let c = coff_link::coff_input(data);
        let entries = coff_link::import_entries(c.imports);
        let total = c.text.len() as int + 6 * c.imports.len();
        let p = pe::pe_plan(total, 0, entries);
        let tables = p.rdata_rva + pe::import_places(entries).address - 0x1000;
        let f = PeFields {
            linker_version: 0,
            code_size: 0,
            data_size: 0,
            entry_rva: ((0x1000 + c.main) as u64) as u32,
            image_size: p.image_size as u32,
            import_rva: p.rdata_rva as u32,
            import_size: (20 * entries.len()) as u32,
            iat_rva: (p.rdata_rva + pe::import_places(entries).address) as u32,
            iat_size: (8 * (pe::symbols_before(entries, entries.len()) + entries.len())) as u32,
        };
        lemma_pe_image(f, coff_link::finished_code(data, c, tables), seq![], p);
    }
}

proof fn lemma_layout_image(l: LayoutModel, entry: u64, dynamic: Option<DynamicModel>)
    ensures
        pe::pe_executable(l, entry, dynamic) matches Ok(b) ==> pe_image(b),
{
    if let Ok(b) = pe::pe_executable(l, entry, dynamic) {
        let text = pe::first_named(l, ".text"@, 0);
        let data = pe::first_named(l, ".data"@, 0);
        let names = pe::imported_names(dynamic);
        let symbols = pe::kernel_imports(names, names.len());
        let entries = seq![ImportModel { dll_name: "KERNEL32.DLL"@, symbols }];
        let p = pe::pe_plan(text.len() as int, data.len() as int, entries);
        let f = PeFields {
            linker_version: 14,
            code_size: segment::padded(text.len() as int, 512) as u32,
            data_size: (segment::padded(p.rdata.len() as int, 512) + segment::padded(
                data.len() as int,
                512,
            )) as u32,
            entry_rva: pe::entry_rva(entry),
            image_size: p.image_size as u32,
            import_rva: p.rdata_rva as u32,
            import_size: 40,
            iat_rva: (p.rdata_rva + pe::import_places(entries).address) as u32,
            iat_size: (8 * (symbols.len() + 1)) as u32,
        };
        lemma_pe_image(f, text, data, p);
    }
}

/// The names that an entry point may have, by preference.
pub open spec fn entry_names(wanted: Option<Seq<char>>) -> Seq<Seq<char>> {
    let usual = seq!["main"@, "_main"@, "_start"@];
    match wanted {
        Some(name) => seq![name] + usual,
        None => usual,
    }
}

/// The entry point is the first known one among the name that is asked for, `main`, `_main` and
/// `_start`. Where none is known, it is the start of the code that the image starts with.
pub proof fn law_entry_is_first_known(wanted: Option<Seq<char>>, m: LinkModel, j: int)
    requires
        0 <= j <= entry_names(wanted).len(),
        forall|k: int| 0 <= k < j ==> !m.symbol_addrs.dom().contains(#[trigger] entry_names(wanted)[k]),
    ensures
        j < entry_names(wanted).len() && m.symbol_addrs.dom().contains(entry_names(wanted)[j])
            ==> driver::entry_of(wanted, m) == Some(m.symbol_addrs[entry_names(wanted)[j]]),
        j == entry_names(wanted).len() && m.layout.sections.len() > 0 && m.layout.sections[0].name
            == ".text"@ ==> driver::entry_of(wanted, m) == Some(m.layout.sections[0].vaddr),
        j == entry_names(wanted).len() && (m.layout.sections.len() == 0
            || m.layout.sections[0].name != ".text"@) ==> driver::entry_of(wanted, m) is None,
{
    let names = entry_names(wanted);
    assert(names.last() == "_start"@);
    if wanted is Some {
        assert(names[0] == wanted->0 && names[1] == "main"@ && names[2] == "_main"@ && names[3]
            == "_start"@);
        if j > 0 {
            assert(!m.symbol_addrs.dom().contains(names[0]));
        }
        if j > 1 {
            assert(!m.symbol_addrs.dom().contains(names[1]));
        }
        if j > 2 {
            assert(!m.symbol_addrs.dom().contains(names[2]));
        }
        if j > 3 {
            assert(!m.symbol_addrs.dom().contains(names[3]));
        }
    } else {
        assert(names[0] == "main"@ && names[1] == "_main"@ && names[2] == "_start"@);
        if j > 0 {
            assert(!m.symbol_addrs.dom().contains(names[0]));
        }
        if j > 1 {
            assert(!m.symbol_addrs.dom().contains(names[1]));
        }
        if j > 2 {
            assert(!m.symbol_addrs.dom().contains(names[2]));
        }
    }
}

/// Whether a section holds code that calls `main`, hands what it returns to the system, and ends
/// the process: a call, `mov rdi, rax`, the number of the system call in `eax`, and `syscall`.
pub open spec fn starts_process(code: Seq<u8>, vaddr: u64, main: u64, number: u32) -> bool {
    &&& code.len() == 15
    &&& code[0] == 0xe8
    &&& vaddr + 5 + bytes::signed32(bytes::u32_at(code, 1)) == main
    &&& code[5] == 0x48 && code[6] == 0x89 && code[7] == 0xc7
    &&& code[8] == 0xb8
    &&& bytes::u32_at(code, 9) == number
    &&& code[13] == 0x0f && code[14] == 0x05
}

proof fn lemma_start_code(main: u64, start: u64, freebsd: bool)
    requires
        -0x8000_0000 <= main - (start + 5) < 0x8000_0000,
    ensures
        starts_process(
            driver::start_code(main, start, freebsd),
            start,
            main,
            if freebsd {
                1
            } else {
                60
            },
        ),
{
    broadcast use bytes::group_le_len;
    let code = driver::start_code(main, start, freebsd);
    let number: u32 = if freebsd {
        1
    } else {
        60
    };
    driver::law_start_calls_main(main, start, freebsd);
    assert(code.subrange(9, 13) =~= bytes::le32(number));
    bytes::lemma_read_u32(code, 9, number);
}

/// The code that is added where nothing defines `_start` stands behind the last section, at a
/// multiple of sixteen bytes. It calls `main`, or `_main` where there is no `main`, and ends the
/// process by the system call of its system: 1 for FreeBSD, else 60. Nothing else changes.
pub proof fn law_added_start_runs_main(m: LinkModel, freebsd: bool)
    requires
        driver::with_start(m, freebsd) is Some,
    ensures
        ({
            let s = driver::with_start(m, freebsd)->0;
            let code = s.layout.sections.last();
            let names = m.symbol_addrs;
            let main = if names.dom().contains("main"@) {
                names["main"@]
            } else {
                names["_main"@]
            };
            &&& names.dom().contains("main"@) || names.dom().contains("_main"@)
            &&& m.e_machine == 62
            &&& s.layout.sections.drop_last() == m.layout.sections
            &&& s.symbol_addrs == names && s.dynamic == m.dynamic && s.e_machine == m.e_machine
            &&& code.vaddr % 16 == 0
            &&& m.layout.sections.last().vaddr + m.layout.sections.last().data.len() <= code.vaddr
            &&& starts_process(
                code.data,
                code.vaddr,
                main,
                if freebsd {
                    1
                } else {
                    60
                },
            )
        }),
{
    let s = driver::with_start(m, freebsd)->0;
    let end = link::section_end(m.layout.sections.last());
    let start = segment::aligned(end as u64, 16);
    let main = driver::main_addr(m.symbol_addrs)->0;
    lemma_start_code(main, start, freebsd);
    assert(s.layout.sections.drop_last() =~= m.layout.sections);
    vstd::arithmetic::power2::lemma2_to64();
    assert(segment::is_power(16, 4));
    segment::law_align_up_bounds(end as u64, 16);
    segment::law_align_up_multiple(end as u64, 16, 4);
}

/// An ELF executable starts at the code that runs `main`, where that is added because nothing
/// defines `_start`, and else at its entry point.
pub proof fn law_elf_output_starts_at_entry(m: LinkModel, arch: TargetArch, a: ArgsModel)
    requires
        driver::started(m, a) is Some,
        driver::elf_bytes(
            (driver::started(m, a)->0).0,
            arch,
            (driver::started(m, a)->0).1,
            driver::os_abi(a.target_os),
        ) is Some,
    ensures
        ({
            let (s, entry) = driver::started(m, a)->0;
            let b = driver::elf_bytes(s, arch, entry, driver::os_abi(a.target_os))->0;
            let added = driver::with_start(m, driver::os_abi(a.target_os) == 9);
            let defined = m.symbol_addrs.dom().contains("_start"@);
            &&& bytes::u64_at(b, 24) == entry
            &&& !defined && added is Some ==> s == added->0 && entry
                == added->0.layout.sections.last().vaddr
            &&& defined || added is None ==> s == m && driver::entry_of(a.entry, m) == Some(entry)
        }),
{
    let (s, entry) = driver::started(m, a)->0;
    let abi = driver::os_abi(a.target_os);
    let b = driver::elf_bytes(s, arch, entry, abi)->0;
    let interpreter = match s.dynamic {
        Some(d) => d.interpreter,
        None => None,
    };
    emit::elf_laws::lemma_executables_have_headers(s.layout, arch, entry, interpreter);
    let plain = match s.dynamic {
        Some(d) => emit::elf::dynamic_executable_bytes(
            s.layout,
            arch,
            entry,
            d.interpreter,
        )->Ok_0,
        None => emit::elf::executable_bytes(s.layout, arch, entry),
    };
    assert(b == plain.update(7, abi));
    bytes::lemma_same_u64(b, 24, plain, 24);
}

/// The header names FreeBSD for FreeBSD and for the systems that descend from it, and no system
/// else.
pub proof fn law_abi_is_of_system(os: Seq<char>)
    ensures
        driver::os_abi(Some(os)) == 9 <==> seq![
            "freebsd"@,
            "orbis"@,
            "ps4"@,
            "prospero"@,
            "ps5"@,
        ].contains(os),
        driver::os_abi(Some(os)) == 9 || driver::os_abi(Some(os)) == 0,
        driver::os_abi(None) == 0,
{
    let all = seq!["freebsd"@, "orbis"@, "ps4"@, "prospero"@, "ps5"@];
    assert(all[0] == "freebsd"@ && all[1] == "orbis"@ && all[2] == "ps4"@ && all[3]
        == "prospero"@ && all[4] == "ps5"@);
    if all.contains(os) {
        let i = all.index_of(os);
        assert(all[i] == os);
    }
}

proof fn lemma_same_letter(c: char, small: char, capital: char)
    requires
        capital as u32 + 32 == small as u32,
    ensures
        c as u32 + 32 == small as u32 <==> c == capital,
{
}

/// The extension that asks for a Windows executable is `exe`, where small letters and capitals are
/// the same.
pub proof fn law_extension_ignores_case(e: Seq<char>)
    ensures
        driver::asks_for_pe(Some(e)) <==> e.len() == 3 && forall|i: int|
            0 <= i < 3 ==> {
                ||| #[trigger] e[i] == "exe"@[i]
                ||| e[i] as u32 + 32 == "exe"@[i] as u32
            },
        !driver::asks_for_pe(None),
{
    reveal_strlit("exe");
    if e.len() == 3 {
        lemma_same_letter(e[0], 'e', 'E');
        lemma_same_letter(e[1], 'x', 'X');
        lemma_same_letter(e[2], 'e', 'E');
    }
}

/// Where the objects of some files could be linked with the requested libraries, there is no failure
/// to explain. Files whose objects cannot be chosen, and those of a format that has no linker of
/// its own, always have an explanation.
pub proof fn law_linked_files_have_no_failure(
    files: Seq<InputModel>,
    libs: Seq<RequestModel>,
    host: Host,
    a: ArgsModel,
)
    ensures
        ({
            let chosen = object::loaded(files, host.cputype);
            let failure = driver::failure_of(files, libs, host);
            &&& chosen is None ==> failure is Some
            &&& chosen matches Some(c) ==> {
                &&& c.0 == ObjectFormat::Coff ==> failure is Some
                &&& c.0 == ObjectFormat::MachO && a.libraries.len() > 0 && driver::macho_output(
                    files,
                    host,
                    a,
                ) is Some ==> failure is None
                &&& c.0 == ObjectFormat::Elf && libs.len() > 0 && object::elf_files(
                    files,
                    host.cputype,
                ) == Some(c.1) && driver::elf_output(files, libs, host, a) is Some
                    ==> failure is None
            }
        }),
{
}

} // verus!
