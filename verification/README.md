# rir_codegen

Generates Rust source from a resolved interface definition. The library is
written in Verus; what each function does is stated in its contract and proved.

- `rir`: definitions as they stand once their names have been resolved.
- `context`: what is known of the program as a whole.
- `scalar`: which values lie wholly on the stack. A check marks the types on its
  way; a struct that lies on the stack is written with `#[repr(C)]`.
- `render`: the source text of single definitions.
- `backend`: what a data format adds to the generated code.
- `codegen`: writing one item.
- `pkgs`, `modules`: writing many items, each to its module, and the modules to a
  file in the order of a tree.
- `preflight`: whether items can be checked and written at all.
- `laws`: what holds of all this together.
- `text`: joining, sorting and writing numbers.

`app/` does the output: it writes files, and can write modules in parallel.

Sorting, joining and grouping come from `itertools`, the map of module texts from
`dashmap`, the file name of a path from `std`. What is taken on trust of them
stands in the contracts of the functions that call them, in `text`, `modules`,
`pkgs` and `context`.
