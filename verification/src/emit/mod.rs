//! Writing executables.
pub mod coff_laws;
pub mod coff_link;
pub mod elf;
pub mod elf_laws;
pub mod export_laws;
pub mod exports;
pub mod fixup_laws;
pub mod fixups;
pub mod import_laws;
pub mod leb;
pub mod macho;
pub mod macho_command_laws;
pub mod macho_dynamic;
pub mod macho_laws;
pub mod opcode_laws;
pub mod opcodes;
pub mod pe;
pub mod pe_laws;
