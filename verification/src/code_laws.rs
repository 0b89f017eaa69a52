//! Properties of what the assembler writes and what the linker computes,
//! stated over the bytes and values themselves.
use vstd::prelude::*;
use crate::assembler::{global_name, analyze, assemble, parse_value, place_operands, with_writer, write_faults, AsmOutcome, AsmView};
use crate::number::{number_panics, number_value, radix_value};
use crate::opcodes::{OpcodeView, TokenView, arrow_parts, build_opcode, load_line, strip_brackets, syntax_operands, syntax_tokens, words, Operand};
use crate::parser::trim;
use crate::program::{RefView, add_reference_of, lemma_write_all_frame, pc16, pop_pc_of, push_pc_of, seek_to, write_all, ProgramView, WriterView};
use crate::text::decimal;

verus! {

/// Bytes written one after the other land at the program counter on: the
/// code then holds them there, keeps every other byte it had, and has
/// zeros in any gap before them.
pub proof fn lemma_write_all_places(w: WriterView, bytes: Seq<u8>)
    ensures
        ({
            let c = write_all(w, bytes).program.code;
            let c0 = w.program.code;
            &&& bytes.len() == 0 ==> write_all(w, bytes) == w
            &&& bytes.len() > 0 ==> c.len() == if w.pc + bytes.len() <= c0.len() {
                c0.len() as int
            } else {
                w.pc + bytes.len() as int
            }
            &&& forall|i: int| 0 <= i < bytes.len() ==> #[trigger] c[w.pc + i] == bytes[i]
            &&& forall|j: int|
                0 <= j < c.len() && !(w.pc <= j < w.pc + bytes.len()) ==> #[trigger] c[j] == if j
                    < c0.len() {
                    c0[j]
                } else {
                    0u8
                }
        }),
    decreases bytes.len(),
{
    if bytes.len() > 0 {
        let d = bytes.drop_last();
        lemma_write_all_places(w, d);
        lemma_write_all_frame(w, d);
        let v = write_all(w, d);
        let cv = v.program.code;
        let c = write_all(w, bytes).program.code;
        let c0 = w.program.code;
        let n = bytes.len() as int;
        assert(v.pc == w.pc + n - 1);
        assert forall|i: int| 0 <= i < n implies #[trigger] c[w.pc + i] == bytes[i] by {
            if i < n - 1 {
                assert(d[i] == bytes[i]);
            }
        }
        assert forall|j: int|
            0 <= j < c.len() && !(w.pc <= j < w.pc + n) implies #[trigger] c[j] == if j < c0.len() {
            c0[j]
        } else {
            0u8
        } by {
            if j < cv.len() {
                assert(c[j] == cv[j]);
            }
        }
    }
}

/// A number given for an operand: one of `0..=255` for a one-byte operand
/// is written as that byte at the program counter; one of `0..=65535` for a
/// two-byte operand as its low byte `x % 256` and then its high byte
/// `x / 256`. The program counter moves past them, every other byte of the
/// code and everything else stays, and the operand succeeds. A number out
/// of the operand's range is refused with its message, and nothing changes.
pub proof fn law_number_operand(s: AsmView, value: Seq<char>, x: i32, size: u8)
    requires
        !number_panics(value),
        number_value(value) == Some(x),
        size == 1 || size == 2,
    ensures
        ({
            let pc = s.writer.pc;
            let ok = if size == 1 { 0 <= x <= 255 } else { 0 <= x <= 65535 };
            &&& ok && !write_faults(s.writer, size as nat) ==> (parse_value(s, value, size) matches AsmOutcome::Done(s2, r)
                && r is Ok && ({
                let c = s2.writer.program.code;
                let c0 = s.writer.program.code;
                &&& size == 1 ==> c[pc as int] == x
                &&& size == 2 ==> c[pc as int] == x % 256 && c[pc + 1int] == x / 256
                &&& c.len() >= pc + size
                &&& forall|j: int|
                    0 <= j < c.len() && !(pc <= j < pc + size) ==> #[trigger] c[j] == if j < c0.len() {
                        c0[j]
                    } else {
                        0u8
                    }
                &&& s2 == (AsmView {
                    writer: WriterView {
                        program: ProgramView { code: c, ..s.writer.program },
                        pc: (pc + size) as nat,
                        ..s.writer
                    },
                    ..s
                })
            }))
            &&& !ok ==> parse_value(s, value, size) == AsmOutcome::Done(
                s,
                Err(
                    decimal(x as int) + if size == 1 {
                        " is not an 8-bit number!"@
                    } else {
                        " is not a 16-bit number!"@
                    },
                ),
            )
        }),
{
    let w = s.writer;
    if size == 1 && 0 <= x <= 255 && !write_faults(w, 1) {
        let b = seq![x as u8];
        assert(write_all(w, b) == crate::program::write_byte(w, x as u8)) by {
            assert(b.drop_last() =~= Seq::<u8>::empty());
            assert(write_all(w, Seq::<u8>::empty()) == w);
            assert(b.last() == x as u8);
        }
        lemma_write_all_places(w, b);
        lemma_write_all_frame(w, b);
        assert(b[0] == x);
    }
    if size == 2 && 0 <= x <= 65535 && !write_faults(w, 2) {
        let v = x as u16;
        let lo = crate::program::low_byte(v);
        let hi = crate::program::high_byte(v);
        assert((v & 0xFF) as u8 == v % 256) by (bit_vector);
        assert((v >> 8) as u8 == v / 256) by (bit_vector);
        let b = seq![lo, hi];
        assert(write_all(w, b) == crate::program::write_byte(crate::program::write_byte(w, lo), hi)) by {
            assert(b.drop_last() =~= seq![lo]);
            assert(seq![lo].drop_last() =~= Seq::<u8>::empty());
            assert(write_all(w, Seq::<u8>::empty()) == w);
            assert(write_all(w, seq![lo]) == crate::program::write_byte(w, lo));
            assert(b.last() == hi);
        }
        lemma_write_all_places(w, b);
        lemma_write_all_frame(w, b);
        assert(b[0] == lo && b[1] == hi);
    }
}

/// The bytes that one word of an instruction's code side stands for: the
/// place `[k]` of operand `k` stands for as many zero bytes as that
/// operand's size; any other word for the byte it writes in hexadecimal.
pub open spec fn code_word_bytes(w: Seq<char>, operands: Seq<Operand>) -> Seq<u8> {
    if w.len() > 0 && w[0] == '[' {
        Seq::new(
            operands[radix_value(strip_brackets(w), 10, false).unwrap()].size as nat,
            |i: int| 0u8,
        )
    } else {
        seq![radix_value(w, 16, false).unwrap() as u8]
    }
}

/// The bytes of a code side: those of its words, word for word.
pub open spec fn code_bytes(ws: Seq<Seq<char>>, operands: Seq<Operand>) -> Seq<u8> {
    ws.map_values(|w: Seq<char>| code_word_bytes(w, operands)).flatten()
}

/// The bytes of an instruction read from its code side are, word for word,
/// the hexadecimal bytes it writes and, at each operand's place, as many
/// zero bytes as the operand's size, however many words there are; the
/// operands keep their number and sizes.
pub proof fn law_code_side_bytes(ws: Seq<Seq<char>>, operands: Seq<Operand>)
    ensures
        build_opcode(ws, operands) matches Some((bytes, ops)) ==> bytes == code_bytes(ws, operands)
            && ops.len() == operands.len() && forall|p: int|
            0 <= p < ops.len() ==> #[trigger] ops[p].size == operands[p].size,
    decreases ws.len(),
{
    if ws.len() > 0 {
        let d = ws.drop_last();
        law_code_side_bytes(d, operands);
        let f = |w: Seq<char>| code_word_bytes(w, operands);
        assert(ws.map_values(f) =~= d.map_values(f).push(f(ws.last())));
        d.map_values(f).lemma_flatten_push(f(ws.last()));
        match build_opcode(d, operands) {
            Some((b0, o0)) => {
                let w = ws.last();
                if w.len() > 0 && w[0] == '[' {
                    match radix_value(strip_brackets(w), 10, false) {
                        Some(p) => if 0 <= p < o0.len() {
                            let o1 = o0.update(p, Operand { size: o0[p].size, position: b0.len() as u8 });
                            assert forall|q: int| 0 <= q < o1.len() implies #[trigger] o1[q].size
                                == operands[q].size by {
                                if q != p {
                                    assert(o1[q] == o0[q]);
                                }
                            }
                        },
                        None => {},
                    }
                }
            },
            None => {},
        }
    }
}

/// A name given for an operand (no number) is recorded as a reference of
/// the operand's size to the global name it stands for, at the program
/// counter (modulo 2^16), for the linker to fill in; zero bytes are written
/// in its place (two for a one-byte operand, one for a two-byte operand),
/// every other byte and everything else stays, and the operand succeeds.
pub proof fn law_name_operand(s: AsmView, value: Seq<char>, size: u8, name: Seq<char>)
    requires
        !number_panics(value),
        number_value(value) is None,
        size == 1 || size == 2,
        global_name(s.scopes, value) == Some(name),
        !write_faults(s.writer, 2),
    ensures
        parse_value(s, value, size) matches AsmOutcome::Done(s2, r) && r is Ok && ({
            let pc = s.writer.pc;
            let zeros: int = if size == 1 { 2 } else { 1 };
            let c = s2.writer.program.code;
            let c0 = s.writer.program.code;
            &&& c.len() >= pc + zeros
            &&& forall|i: int| 0 <= i < zeros ==> #[trigger] c[pc + i] == 0u8
            &&& forall|j: int|
                0 <= j < c.len() && !(pc <= j < pc + zeros) ==> #[trigger] c[j] == if j < c0.len() {
                    c0[j]
                } else {
                    0u8
                }
            &&& s2 == (AsmView {
                writer: WriterView {
                    program: ProgramView {
                        code: c,
                        references: s.writer.program.references.push(
                            RefView { tag: name, location: (pc % 0x10000) as u16, size },
                        ),
                        ..s.writer.program
                    },
                    pc: (pc + zeros) as nat,
                    ..s.writer
                },
                ..s
            })
        }),
{
    let w = s.writer;
    let w1 = add_reference_of(w, RefView { tag: name, location: pc16(w), size });
    let zeros: nat = if size == 1 { 2 } else { 1 };
    let z = Seq::new(zeros, |i: int| 0u8);
    lemma_write_all_places(w1, z);
    lemma_write_all_frame(w1, z);
    let w2 = write_all(w1, z);
    assert forall|i: int| 0 <= i < zeros implies #[trigger] w2.program.code[w.pc + i] == 0u8 by {
        assert(z[i] == 0u8);
    }
}

/// Whether a code-side word is the place of operand `p`: `[p]`.
pub open spec fn is_place_of(w: Seq<char>, p: int) -> bool {
    w.len() > 0 && w[0] == '[' && radix_value(strip_brackets(w), 10, false) == Some(p)
}

/// Each operand of an instruction read from its code side lies at the byte
/// offset of its place there (the number of bytes of the words before it,
/// cut to 8 bits; its last place, where it has several); an operand with no
/// place keeps the position it had.
pub proof fn law_code_side_positions(ws: Seq<Seq<char>>, operands: Seq<Operand>)
    ensures
        build_opcode(ws, operands) matches Some((bytes, ops)) ==> {
            &&& forall|p: int, i: int|
                #![trigger is_place_of(ws[i], p), ops[p]]
                0 <= p < ops.len() && 0 <= i < ws.len() && is_place_of(ws[i], p) && (forall|j: int|
                    i < j < ws.len() ==> !#[trigger] is_place_of(ws[j], p)) ==> ops[p].position == (code_bytes(
                    ws.take(i),
                    operands,
                ).len() as u8)
            &&& forall|p: int|
                0 <= p < ops.len() && (forall|i: int| 0 <= i < ws.len() ==> !#[trigger] is_place_of(ws[i], p))
                    ==> #[trigger] ops[p] == operands[p]
        },
    decreases ws.len(),
{
    if ws.len() > 0 {
        let n = ws.len() - 1;
        let d = ws.drop_last();
        law_code_side_positions(d, operands);
        law_code_side_bytes(d, operands);
        law_code_side_bytes(ws, operands);
        assert(ws.take(n) =~= d);
        match build_opcode(d, operands) {
            Some((b0, o0)) => {
                let w = ws.last();
                assert(w == ws[n]);
                match build_opcode(ws, operands) {
                    Some((bytes, ops)) => {
                        assert forall|p: int, i: int|
                            #![trigger is_place_of(ws[i], p), ops[p]]
                            0 <= p < ops.len() && 0 <= i < ws.len() && is_place_of(ws[i], p) && (forall|j: int|
                                i < j < ws.len() ==> !#[trigger] is_place_of(ws[j], p)) implies ops[p].position
                            == (code_bytes(ws.take(i), operands).len() as u8) by {
                            if i < n {
                                assert(ws[i] == d[i]);
                                assert(!is_place_of(ws[n], p));
                                assert forall|j: int| i < j < d.len() implies !#[trigger] is_place_of(d[j], p) by {
                                    assert(d[j] == ws[j]);
                                    assert(!is_place_of(ws[j], p));
                                }
                                assert(ws.take(i) =~= d.take(i));
                                assert(is_place_of(d[i], p));
                                if is_place_of(w, p) {
                                } else if w.len() > 0 && w[0] == '[' {
                                    let q = radix_value(strip_brackets(w), 10, false).unwrap();
                                    assert(q != p);
                                    assert(ops[p] == o0[p]);
                                } else {
                                    assert(ops == o0);
                                }
                            } else {
                                assert(i == n);
                            }
                        }
                        assert forall|p: int|
                            0 <= p < ops.len() && (forall|i: int| 0 <= i < ws.len() ==> !#[trigger] is_place_of(ws[i], p))
                                implies #[trigger] ops[p] == operands[p] by {
                            assert forall|i: int| 0 <= i < d.len() implies !#[trigger] is_place_of(d[i], p) by {
                                assert(d[i] == ws[i]);
                                assert(!is_place_of(ws[i], p));
                            }
                            assert(!is_place_of(ws[n], p));
                            assert(o0[p] == operands[p]);
                        }
                    },
                    None => {},
                }
            },
            None => {},
        }
    }
}

/// A table line that loads gives its pattern the bytes of its code side:
/// word for word, the hexadecimal bytes and, at each operand's place, as
/// many zero bytes as the operand's size.
pub proof fn law_loaded_instruction_bytes(t: crate::opcodes::TableView, line: Seq<char>)
    ensures
        trim(line).len() > 0 ==> (load_line(t, line) matches Ok(t2) ==> (arrow_parts(trim(line)) matches Some(
            (syn, code),
        ) && t2.opcodes[syntax_tokens(words(syn))].bytes == code_bytes(
            words(code),
            syntax_operands(words(syn)),
        ))),
{
    let l = trim(line);
    if l.len() > 0 {
        match arrow_parts(l) {
            Some((syn, code)) => law_code_side_bytes(words(code), syntax_operands(words(syn))),
            None => {},
        }
    }
}

/// Pattern tokens that are all keywords are passed over when the operands
/// are placed.
proof fn lemma_skip_keywords(
    s: AsmView,
    instr: Seq<Seq<char>>,
    toks: Seq<TokenView>,
    op: OpcodeView,
    a: nat,
    b: nat,
    k: nat,
)
    requires
        a <= b <= instr.len(),
        instr.len() == toks.len(),
        forall|j: int| a <= j < b ==> #[trigger] toks[j] is Keyword,
    ensures
        place_operands(s, instr, toks, op, a, k) == place_operands(s, instr, toks, op, b, k),
    decreases b - a,
{
    if a < b {
        lemma_skip_keywords(s, instr, toks, op, a + 1, b, k);
    }
}

/// An instruction with one operand, given as a number in its range: the
/// instruction's bytes are written at the program counter, except that the
/// number's bytes (its low byte first, for two bytes) stand at the
/// operand's position; the program counter ends just past the instruction,
/// every other byte of the code stays, and the line succeeds.
pub proof fn law_instruction_with_number(s: AsmView, instr: Seq<Seq<char>>, i: int, x: i32)
    requires
        0 <= i < instr.len(),
        s.table.opcodes.contains_key(instr.map_values(|w: Seq<char>| analyze(s.table, w))),
        forall|j: int| 0 <= j < instr.len() && j != i ==> s.table.keywords.contains(#[trigger] instr[j]),
        !s.table.keywords.contains(instr[i]),
        ({
            let op = s.table.opcodes[instr.map_values(|w: Seq<char>| analyze(s.table, w))];
            &&& op.operands.len() == 1
            &&& op.operands[0].size == 1 || op.operands[0].size == 2
            &&& op.operands[0].position + op.operands[0].size <= op.bytes.len()
            &&& s.writer.pc + op.bytes.len() <= 0xFFFF
            &&& if op.operands[0].size == 1 { 0 <= x <= 255 } else { 0 <= x <= 65535 }
        }),
        !number_panics(instr[i]),
        number_value(instr[i]) == Some(x),
    ensures
        assemble(s, instr) matches AsmOutcome::Done(s2, r) && r is Ok && ({
            let op = s.table.opcodes[instr.map_values(|w: Seq<char>| analyze(s.table, w))];
            let pos = op.operands[0].position as int;
            let size = op.operands[0].size as int;
            let pc = s.writer.pc as int;
            let c = s2.writer.program.code;
            let c0 = s.writer.program.code;
            &&& c.len() >= pc + op.bytes.len()
            &&& forall|j: int|
                0 <= j < op.bytes.len() && !(pos <= j < pos + size) ==> #[trigger] c[pc + j] == op.bytes[j]
            &&& size == 1 ==> c[pc + pos] == x
            &&& size == 2 ==> c[pc + pos] == x % 256 && c[pc + pos + 1] == x / 256
            &&& forall|m: int|
                0 <= m < c.len() && !(pc <= m < pc + op.bytes.len()) ==> #[trigger] c[m] == if m < c0.len() {
                    c0[m]
                } else {
                    0u8
                }
            &&& s2 == (AsmView {
                writer: WriterView {
                    program: ProgramView { code: c, ..s.writer.program },
                    pc: s.writer.pc + op.bytes.len(),
                    ..s.writer
                },
                ..s
            })
        }),
{
    let toks = instr.map_values(|w: Seq<char>| analyze(s.table, w));
    let op = s.table.opcodes[toks];
    let operand = op.operands[0];
    let len = op.bytes.len();
    let pc0 = s.writer.pc;
    assert forall|j: int| 0 <= j < instr.len() && j != i implies #[trigger] toks[j] is Keyword by {
        assert(s.table.keywords.contains(instr[j]));
    }
    assert(toks[i] is Value);
    let w1 = write_all(s.writer, op.bytes);
    lemma_write_all_places(s.writer, op.bytes);
    lemma_write_all_frame(s.writer, op.bytes);
    let s1 = with_writer(s, w1);
    assert(assemble(s, instr) == place_operands(s1, instr, toks, op, 0, 0));
    lemma_skip_keywords(s1, instr, toks, op, 0, i as nat, 0);
    assert(pc16(w1) == pc0 + len);
    assert((len as u16) as int == len);
    let target = (pc0 + operand.position) as u16;
    let w2 = seek_to(push_pc_of(w1), target);
    let sv = with_writer(s1, w2);
    law_number_operand(sv, instr[i], x, operand.size);
    match parse_value(sv, instr[i], operand.size) {
        AsmOutcome::Done(s3, r3) => {
            let s4 = with_writer(s3, pop_pc_of(s3.writer));
            assert(place_operands(s1, instr, toks, op, i as nat, 0) == place_operands(
                s4,
                instr,
                toks,
                op,
                (i + 1) as nat,
                1,
            ));
            lemma_skip_keywords(s4, instr, toks, op, (i + 1) as nat, instr.len(), 1);
            assert(place_operands(s4, instr, toks, op, instr.len(), 1) == AsmOutcome::Done(s4, Ok(())));
            let c1 = w1.program.code;
            let c = s4.writer.program.code;
            assert(c == s3.writer.program.code);
            assert forall|j: int|
                0 <= j < len && !(operand.position <= j < operand.position + operand.size) implies #[trigger] c[pc0
                + j] == op.bytes[j] by {
                assert(c[pc0 + j] == c1[pc0 + j]);
            }
            assert forall|m: int| 0 <= m < c.len() && !(pc0 <= m < pc0 + len) implies #[trigger] c[m] == if m
                < s.writer.program.code.len() {
                s.writer.program.code[m]
            } else {
                0u8
            } by {
                assert(c[m] == c1[m]);
            }
            assert(s4.writer =~= (WriterView {
                program: ProgramView { code: c, ..s.writer.program },
                pc: pc0 + len,
                ..s.writer
            }));
        },
        AsmOutcome::Fault => {},
    }
}

} // verus!
