# fat32_rs

A small x86_64 teaching kernel's logic, verified with Verus: a read-only
FAT32 volume reader, a size-class slab allocator with its page bump
allocator, and the arithmetic of kernel bring-up.

## Layout

- `src/` — the verified library.
  - `blockdev`, `bpb`, `fat`, `dir`, `path`, `fs`: sector devices, the BIOS
    parameter block, FAT chains, 8.3 directory records, path
    normalization and the `Fat32` volume (`mount`, `pwd`, `cd`, `ls`,
    `read_file`). Each operation's result is stated over a model of the
    volume's bytes.
  - `allocator`: alignment arithmetic, the bump allocator and the slab
    allocator, modelled as a `HeapView`; `allocate` and `dealloc` are
    stated as steps on that model, with their laws (invariant kept,
    results aligned and disjoint, freed objects reused first).
  - `kernel`: exit codes, interrupt vector offsets, the heap's page range
    and the usable frames of the boot memory map.
- `tests/` — tests of the library on concrete values.
- `app/` — the kernel itself: boot entry, serial console, GDT/IDT, page
  tables, and the global allocator glue around the library. It needs a
  nightly toolchain for the `x86-interrupt` calling convention.
