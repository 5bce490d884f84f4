# fal

The Factory Assembly Language toolchain: a line parser for `.fal` programs, an
x86_64 JIT emitter with its linker, the tray-to-register mapping, the FALZ
storage layout and the command-line front end, specified and proved with Verus.

- `src/text.rs`: character-level text primitives (trimming, searching, splitting,
  decimal numbers, UTF-8 widths) over `Seq<char>`.
- `src/parser.rs`: what a source line means (`line_meaning`) and the parser that
  computes it.
- `src/target.rs`, `src/mapper.rs`: the host context and where each tray lives.
- `src/jit.rs`: the emitter state machine (`compile_step`), whole-program
  compilation (`compile_lines`), finishing and linking (`linked_code`), and the
  laws that tie them together.
- `src/falz.rs`, `src/cli.rs`: the storage layout, its records, and what a
  command line asks for.
- `app/main.rs`: the `fal` binary: arguments, files, the executable mapping and
  the call into the generated code.
