use x80::assembler::Assembler;
use x80::linker::Linker;
use x80::opcode_table::OPCODES;
use x80::parser::tokenize_line;
use x80::program::{lookup_tag, Program};

const TABLE: &str = "
nop -> 00
ret -> C9
ld a , [8] -> 3E [0]
ld hl , [16] -> 21 [0]
jp [16] -> C3 [0]
jp nz , [16] -> C2 [0]
call [16] -> CD [0]
ld ( [16] ) , a -> 32 [0]
@byte [8] -> [0]
ld ( ix + [8] ) , [8] -> DD 36 [0] [1]
";

fn assembler() -> Assembler {
    let mut a = Assembler::empty();
    a.load_instructions(TABLE);
    a
}

fn line(a: &mut Assembler, text: &str) -> Result<(), String> {
    a.parse(tokenize_line(text))
}

fn tag(p: &Program, name: &str) -> Option<u16> {
    lookup_tag(&p.tags, &name.to_string())
}

#[test]
fn instructions_become_code() {
    let mut a = assembler();
    assert_eq!(line(&mut a, "ld a, 80"), Ok(()));
    assert_eq!(line(&mut a, "ld a, 0x80"), Ok(()));
    assert_eq!(line(&mut a, "ld a, 00000101b"), Ok(()));
    assert_eq!(line(&mut a, "ld hl, 0x1234"), Ok(()));
    assert_eq!(line(&mut a, "ret"), Ok(()));
    let p = a.program();
    assert_eq!(p.code, vec![0x3E, 80, 0x3E, 0x80, 0x3E, 5, 0x21, 0x34, 0x12, 0xC9]);
}

#[test]
fn operands_go_to_their_positions() {
    let mut a = assembler();
    assert_eq!(line(&mut a, "ld (ix+5), 7"), Ok(()));
    assert_eq!(a.program().code, vec![0xDD, 0x36, 5, 7]);
}

#[test]
fn unknown_instruction_is_a_syntax_error() {
    let mut a = assembler();
    assert_eq!(line(&mut a, "frobnicate a"), Err("syntax error".to_string()));
}

#[test]
fn numbers_must_fit_their_operand() {
    let mut a = assembler();
    assert_eq!(line(&mut a, "ld a, 300"), Err("300 is not an 8-bit number!".to_string()));
    assert_eq!(line(&mut a, "ld a, {-1}"), Err("-1 is not an 8-bit number!".to_string()));
    assert_eq!(line(&mut a, "ld a, -1"), Err("syntax error".to_string()));
    assert_eq!(line(&mut a, "ld hl, 65536"), Err("65536 is not a 16-bit number!".to_string()));
}

#[test]
fn tags_are_defined_at_the_program_counter() {
    let mut a = assembler();
    assert_eq!(line(&mut a, "nop"), Ok(()));
    assert_eq!(line(&mut a, "start:"), Ok(()));
    assert_eq!(line(&mut a, "@define text_offset 7"), Ok(()));
    let p = a.program();
    assert_eq!(tag(&p, "start"), Some(1));
    assert_eq!(tag(&p, "text_offset"), Some(7));
}

#[test]
fn address_labels_move_the_program_counter_and_pad() {
    let mut a = assembler();
    assert_eq!(line(&mut a, "0x0004:"), Ok(()));
    assert_eq!(line(&mut a, "ret"), Ok(()));
    assert_eq!(a.program().code, vec![0, 0, 0, 0, 0xC9]);
}

#[test]
fn lone_address_label_pads_with_zeros() {
    let mut a = assembler();
    assert_eq!(line(&mut a, "0x0100:"), Ok(()));
    let p = a.program();
    assert_eq!(p.code, vec![0u8; 0x100]);
    assert!(p.tags.is_empty());
}

#[test]
fn address_label_before_the_end_only_seeks() {
    let mut a = assembler();
    assert_eq!(line(&mut a, "ld a, 1"), Ok(()));
    assert_eq!(line(&mut a, "ld a, 2"), Ok(()));
    assert_eq!(line(&mut a, "1:"), Ok(()));
    assert_eq!(line(&mut a, "ret"), Ok(()));
    assert_eq!(a.program().code, vec![0x3E, 0xC9, 0x3E, 2]);
}

#[test]
fn operand_positions_are_byte_offsets() {
    let mut a = Assembler::empty();
    a.load_instructions("zzw [16] [8] -> DD [0] [1]");
    assert_eq!(line(&mut a, "zzw 0x1234 5"), Ok(()));
    assert_eq!(a.program().code, vec![0xDD, 0x34, 0x12, 5]);
}

#[test]
fn namespaces_prefix_tags() {
    let mut a = assembler();
    assert_eq!(line(&mut a, "@mod main"), Ok(()));
    assert_eq!(line(&mut a, "@function main"), Ok(()));
    assert_eq!(line(&mut a, "text:"), Ok(()));
    assert_eq!(line(&mut a, "@end"), Ok(()));
    assert_eq!(line(&mut a, "@end"), Ok(()));
    assert_eq!(line(&mut a, "@end"), Err("@end called in global scope!".to_string()));
    let p = a.program();
    assert_eq!(tag(&p, "main__main"), Some(0));
    assert_eq!(tag(&p, "main__main__text"), Some(0));
}

#[test]
fn anonymous_scopes_are_numbered() {
    let mut a = assembler();
    assert_eq!(line(&mut a, "@scope"), Ok(()));
    assert_eq!(line(&mut a, "loop:"), Ok(()));
    assert_eq!(line(&mut a, "@end"), Ok(()));
    assert_eq!(line(&mut a, "@scope"), Ok(()));
    assert_eq!(line(&mut a, "loop:"), Ok(()));
    let p = a.program();
    assert_eq!(tag(&p, "_anon_0___loop"), Some(0));
    assert_eq!(tag(&p, "_anon_1___loop"), Some(0));
}

#[test]
fn references_resolve_local_parent_and_global_names() {
    let mut a = assembler();
    assert_eq!(line(&mut a, "@mod io"), Ok(()));
    assert_eq!(line(&mut a, "@function puts"), Ok(()));
    assert_eq!(line(&mut a, "jp nz, @loop"), Ok(()));
    assert_eq!(line(&mut a, "ld (@@buffer), a"), Ok(()));
    assert_eq!(line(&mut a, "call io__other"), Ok(()));
    let p = a.program();
    let names: Vec<String> = p.references.iter().map(|r| r.tag.clone()).collect();
    assert_eq!(names, vec!["io__puts__loop", "io__buffer", "io__other"]);
    assert_eq!(p.references[0].location, 1);
    assert_eq!(p.references[0].size, 2);
    assert_eq!(p.references[1].location, 4);
}

#[test]
fn too_many_at_signs() {
    let mut a = assembler();
    assert_eq!(line(&mut a, "@mod m"), Ok(()));
    assert_eq!(line(&mut a, "jp @@@x"), Err("Too many @ symbols".to_string()));
}

#[test]
fn strings_and_bytes() {
    let mut a = assembler();
    assert_eq!(line(&mut a, "@string {hi}"), Ok(()));
    assert_eq!(line(&mut a, "@byte 0"), Ok(()));
    assert_eq!(line(&mut a, "@string {é}"), Ok(()));
    assert_eq!(a.program().code, vec![b'h', b'i', 0, 0xC3, 0xA9]);
}

#[test]
fn static_variables_are_allocated_in_order() {
    let mut a = assembler();
    assert_eq!(line(&mut a, "@alloc_from 0x8000"), Ok(()));
    assert_eq!(line(&mut a, "@alloc buffer 0x100"), Ok(()));
    assert_eq!(line(&mut a, "@alloc variable 4"), Ok(()));
    assert_eq!(line(&mut a, "@scope"), Ok(()));
    assert_eq!(line(&mut a, "@alloc another_variable 1"), Ok(()));
    let p = a.program();
    assert_eq!(tag(&p, "buffer"), Some(0x8000));
    assert_eq!(tag(&p, "variable"), Some(0x8100));
    assert_eq!(tag(&p, "_anon_0___another_variable"), Some(0x8104));
}

#[test]
fn allocation_starts_at_the_top() {
    let mut a = assembler();
    assert_eq!(line(&mut a, "@alloc last 0"), Ok(()));
    assert_eq!(tag(&a.program(), "last"), Some(0xFFFF));
}

#[test]
fn directives_need_numbers() {
    let mut a = assembler();
    assert_eq!(line(&mut a, "@define x y"), Err("cannot parse number".to_string()));
    assert_eq!(line(&mut a, "@alloc_from nowhere"), Err("cannot parse number".to_string()));
    assert_eq!(line(&mut a, "@alloc v lots"), Err("cannot parse number".to_string()));
    let p = a.program();
    assert_eq!(tag(&p, "x"), None);
    assert_eq!(tag(&p, "v"), Some(0xFFFF));
}

#[test]
fn comments_do_nothing() {
    let mut a = assembler();
    assert_eq!(line(&mut a, "@ this is a comment"), Ok(()));
    assert_eq!(line(&mut a, "@ end"), Ok(()));
    assert_eq!(line(&mut a, ""), Ok(()));
    assert_eq!(a.program().code, Vec::<u8>::new());
}

#[test]
fn comments_may_follow_statements() {
    let mut a = assembler();
    assert_eq!(line(&mut a, "ld a, 80        @ loads a with decimal 80"), Ok(()));
    assert_eq!(line(&mut a, "@define text_offset 7 @ defines a constant"), Ok(()));
    assert_eq!(line(&mut a, "@alloc_from 0x8000 @ RAM starts here"), Ok(()));
    assert_eq!(line(&mut a, "@alloc buffer 0x100 @ 256 bytes"), Ok(()));
    let p = a.program();
    assert_eq!(p.code, vec![0x3E, 80]);
    assert_eq!(tag(&p, "text_offset"), Some(7));
    assert_eq!(tag(&p, "buffer"), Some(0x8000));
}

#[test]
fn overflowing_allocation_is_a_fault() {
    let mut a = assembler();
    assert_eq!(line(&mut a, "@alloc_from 0xFFFF"), Ok(()));
    assert_eq!(a.try_parse(tokenize_line("@alloc x 2")), None);
}

#[test]
fn malformed_tables_are_refused() {
    let mut a = Assembler::empty();
    assert_eq!(a.try_load_instructions("nop -> 00\nbroken line\n"), Err("wrong opcode syntax!".to_string()));
    let mut b = Assembler::empty();
    assert_eq!(b.try_load_instructions("ld a , [8] -> 3E [5]"), Err("wrong opcode syntax!".to_string()));
    let mut c = Assembler::empty();
    assert_eq!(c.try_load_instructions("x -> 1FF"), Err("wrong opcode syntax!".to_string()));
    let mut d = Assembler::empty();
    assert_eq!(d.try_load_instructions("\r\n  nop -> 00 \r\n\n"), Ok(()));
    assert_eq!(d.parse(tokenize_line("nop")), Ok(()));
}

const README_SOURCE: &str = "
0x0004:
@mod main
  @function main
    @define text_offset 7 @ defines a constant
    ld hl, {@text+@text_offset} @ example of an expression
    call io__display__puts
    ret
    text:
      @string  {hi}
      @byte 0
  @end
@end
@mod io
  @mod display
    @define buffer 0x8000
    @function puts
      loop:
        @scope
        loop:
          @ this tag is also called loop but it's in a different scope...
          jp nz, @loop
        @end
        @ ...some more code...
        jp nz, @loop
      ret
    @end
  @end
@end";

const README_CODE: [u8; 21] = [
    0, 0, 0, 0,
    0x21, 0x12, 0x00,
    0xCD, 0x0E, 0x00,
    0xC9,
    b'h', b'i', 0,
    0xC2, 0x0E, 0x00,
    0xC2, 0x0E, 0x00,
    0xC9,
];

fn assemble_and_link(mut a: Assembler, source: &str) -> Vec<u8> {
    for l in source.lines() {
        assert_eq!(line(&mut a, l), Ok(()));
    }
    let mut linker = Linker::new();
    linker.set_program(a.program());
    let p = linker.run().unwrap();
    p.dump().unwrap()
}

#[test]
fn readme_example_links() {
    assert_eq!(assemble_and_link(assembler(), README_SOURCE), README_CODE.to_vec());
}

#[test]
fn new_assembler_knows_the_z80_instructions() {
    assert_eq!(assemble_and_link(Assembler::new(), README_SOURCE), README_CODE.to_vec());
    let mut a = Assembler::new();
    for l in ["nop", "ld bc, 0x1234", "push hl", "out (0x10), a", "ld (ix+5), 7", "ex de, hl", "ldir", "add a, 3", "@byte 9"] {
        assert_eq!(line(&mut a, l), Ok(()));
    }
    assert_eq!(line(&mut a, "frobnicate a"), Err("syntax error".to_string()));
    assert_eq!(
        a.program().code,
        vec![0x00, 0x01, 0x34, 0x12, 0xE5, 0xD3, 0x10, 0xDD, 0x36, 5, 7, 0xEB, 0xED, 0xB0, 0xC6, 3, 9]
    );
}

#[test]
fn bundled_table_is_well_formed() {
    let mut a = Assembler::empty();
    assert_eq!(a.try_load_instructions(OPCODES), Ok(()));
    assert_eq!(line(&mut a, "ret"), Ok(()));
    assert_eq!(a.program().code, vec![0xC9]);
}

#[test]
fn empty_assembler_knows_no_instruction() {
    let mut a = Assembler::empty();
    assert_eq!(line(&mut a, "nop"), Err("syntax error".to_string()));
    assert_eq!(line(&mut a, "start:"), Ok(()));
    assert_eq!(a.program().code, Vec::<u8>::new());
}

#[test]
fn string_of_an_at_sign_is_text() {
    let mut a = assembler();
    assert_eq!(line(&mut a, "@string {@}"), Ok(()));
    assert_eq!(line(&mut a, "@string {@} @ a comment"), Ok(()));
    assert_eq!(a.program().code, vec![b'@', b'@']);
}
