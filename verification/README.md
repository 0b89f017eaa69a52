# x80

A z80 assembler with namespaces and static variables, and its linker, as a
Verus library with a thin command-line program around it.

- `src/text.rs`: characters and strings (the `char` queries the tokenizer uses,
  decimal formatting).
- `src/number.rs`: reading numbers (decimal, `0x` hexadecimal, 8- or 16-digit
  binary with a trailing `b`).
- `src/parser.rs`: splitting source lines into tokens.
- `src/opcodes.rs`: the instruction table and its text format.
- `src/opcode_table.rs`: the z80 instruction table text that
  `Assembler::new` loads (`Assembler::empty` starts with no instructions).
- `src/program.rs`: programs (code, tags, references) and the code writer.
- `src/assembler.rs`: what each line does to the assembler.
- `src/linker.rs`: resolving references, including expressions over tags.
- `src/laws.rs`: properties that span several calls.
- `app/`: `x80 OUTPUT INPUT1 [INPUT2 ..]`.

Instruction table lines look like `ld a , [8] -> 3E [0]`: a pattern of words
separated by spaces (`[8]` and `[16]` stand for one- and two-byte values), `->`,
then hexadecimal bytes and `[k]` where operand `k` goes.
