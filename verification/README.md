# Azula

The core of a compiler for Azula, a strongly-typed language with an LLVM backend,
written in Rust and verified with Verus.

- `src/` is the library. Every function has a contract over mathematical models of
  syntax trees, types, programs and texts, and is proved against it. `src/lib.rs`
  lists the modules.
- `tests/` runs the library.
- `app/` is the command line around the library: it parses arguments, reads files,
  builds machine code with LLVM 18 and links it, with `zig cc` if there is one and
  `cc` otherwise. It takes the passes that turn text into a typed tree, and the
  sources of the standard library, from its caller.

```
azula build FILENAME [-o OUTPUT] [--emit-llvm] [--release]
azula run FILENAME
```

Numbers with a fraction are held as the bits of their 64-bit IEEE 754 form.
