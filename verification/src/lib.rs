//! A linker for ELF, Mach-O and COFF relocatable objects.
#![allow(unused_imports)]

pub mod arch;
pub mod archive_laws;
pub mod bytes;
pub mod cli;
pub mod coff;
pub mod command_laws;
pub mod delegate;
pub mod driver;
pub mod driver_laws;
pub mod elf;
pub mod emit;
pub mod link;
pub mod macho;
pub mod macho_object_laws;
pub mod model;
pub mod names;
pub mod object;
pub mod object_laws;
pub mod order;
pub mod platform;
pub mod reading_laws;
pub mod segment;
pub mod text;
