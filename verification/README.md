# delink

A splitting tool for decompilation projects: it takes a linked x86 image and
what a disassembler knows of it, and gives back relocatable objects that a linker
can put together again.

- `src/` is the library, verified with Verus: the contract of a function says
  what it returns, and the proofs rule out panics and overflow. What is not
  proved but believed are the contracts of a few wrappers around the `object` and
  `iced-x86` crates and the standard library, marked `external_body` or
  `assume_specification`; the doc comment of each says what it claims.
- `tests/` runs the library on concrete values.
- `app/` is the command line around it: arguments, files, JSON, and the readers
  and emitters of other formats.

## How a split goes

1. An export and the image are decoded (`export`, `pe`), and their relocations
   combined (`fixups`).
2. Addresses are resolved to names (`resolver`), with regard to which object owns
   which data (`groups`, `ownership`).
3. Each group of functions and data ranges is drafted: bytes with relocated
   fields cleared, symbols, and relocations by name (`function_code`, `blocks`,
   `objects`; `recover`, `tables` and `x86` read the code). What no group holds
   goes into a shared draft (`shared`).
4. The draft is finished (`plan`): names are bound to symbols.
5. The finished object is written (`writer`), where the file format can hold it
   (`limits`), with split metadata (`split_meta`) and auxiliary function records
   (`coff`).

`laws` and `meta_laws` state what holds of every split: every function and data
range of a group is in its object, emitted bytes are those of the image but for
relocated fields, data is either owned or shared, and metadata leads from every
symbol back to its address.
