# weld

A linker for ELF, Mach-O and COFF objects, written and verified in Verus.

It reads relocatable objects and archives, merges their sections, resolves
their symbols, applies their relocations, and writes an ELF, Mach-O or PE
executable. Shared libraries are linked dynamically: through a procedure
linkage table for ELF, through stubs for Mach-O, and through an import table
for PE.

## Layout

- `src/` is the library. Every function states what it returns or changes, and
  Verus proves it.
  - `bytes`, `text`, `names`, `order`, `segment`, `model`: what the rest is
    built on.
  - `elf`, `macho`, `coff`, `object`: reading objects, archives and universal
    files, and choosing which members of an archive are needed.
  - `link`: merging, symbols and relocations, for each format and architecture;
    `link::resolver` tells where libraries are looked for.
  - `emit`: writing executables.
  - `cli`, `delegate`, `driver`: the command line, and the way from files to an
    executable.
  - The functions that start with `law_` state what holds of several of the
    others together; most of them stand in the modules that end in `_laws`.
- `app/` is the program around the library: it reads the files, looks for the
  libraries, and writes the result.
- `tests/` runs the library on small objects.

The one thing that the proofs rest on besides Verus and its library is how
`std` decodes UTF-8; `text` says what is assumed of it.
