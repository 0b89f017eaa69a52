use x80::assembler::Assembler;
use x80::parser::tokenize_line;
use x80::program::{lookup_tag, Program, ProgramWriter};

const TABLE: &str = "jp [16] -> C3 [0]\nld a , [8] -> 3E [0]\nret -> C9\n";

fn assembler() -> Assembler {
    let mut a = Assembler::empty();
    a.load_instructions(TABLE);
    a
}

fn run(a: &mut Assembler, lines: &[&str]) {
    for l in lines {
        assert_eq!(a.parse(tokenize_line(l)), Ok(()));
    }
}

fn tag(p: &Program, name: &str) -> Option<u16> {
    lookup_tag(&p.tags, &name.to_string())
}

#[test]
fn end_undoes_mod() {
    let mut a = assembler();
    run(&mut a, &["@mod outer", "@end", "x:"]);
    assert_eq!(tag(&a.program(), "x"), Some(0));
}

#[test]
fn end_undoes_function_but_keeps_its_tag() {
    let mut a = assembler();
    run(&mut a, &["ret", "@function f", "@end", "y:"]);
    let p = a.program();
    assert_eq!(tag(&p, "f"), Some(1));
    assert_eq!(tag(&p, "y"), Some(1));
}

#[test]
fn end_undoes_scope() {
    let mut a = assembler();
    run(&mut a, &["@scope", "@end", "@scope", "z:", "@end", "w:"]);
    let p = a.program();
    assert_eq!(tag(&p, "_anon_1___z"), Some(0));
    assert_eq!(tag(&p, "w"), Some(0));
}

#[test]
fn local_reference_meets_local_tag() {
    let mut a = assembler();
    run(&mut a, &["@mod m", "ret", "here:", "jp @here"]);
    let p = a.program();
    assert_eq!(tag(&p, "m__here"), Some(1));
    assert_eq!(p.references[0].tag, "m__here");
}

#[test]
fn parent_and_global_references() {
    let mut a = assembler();
    run(&mut a, &["@mod m", "@mod n", "jp @@up", "jp m__n__abs"]);
    let p = a.program();
    assert_eq!(p.references[0].tag, "m__up");
    assert_eq!(p.references[1].tag, "m__n__abs");
}

#[test]
fn comment_line_changes_nothing() {
    let mut a = assembler();
    run(&mut a, &["ret", "@ jp 5", "  @\tld a, 3"]);
    assert_eq!(a.program().code, vec![0xC9]);
}

#[test]
fn alloc_places_variables_in_sequence() {
    let mut a = assembler();
    run(&mut a, &["@alloc_from 0x100", "@alloc a 3", "@alloc b 0x10", "@alloc c 1"]);
    let p = a.program();
    assert_eq!(tag(&p, "a"), Some(0x100));
    assert_eq!(tag(&p, "b"), Some(0x103));
    assert_eq!(tag(&p, "c"), Some(0x113));
}

#[test]
fn define_cuts_to_sixteen_bits() {
    let mut a = assembler();
    run(&mut a, &["@define big 0x12345"]);
    assert_eq!(tag(&a.program(), "big"), Some(0x2345));
}

#[test]
fn label_number_seeks_and_pads() {
    let mut a = assembler();
    run(&mut a, &["ret", "3:", "ret", "1:", "ld a, 7"]);
    assert_eq!(a.program().code, vec![0xC9, 0x3E, 7, 0xC9]);
}

#[test]
fn push_pop_and_seek_on_writer() {
    let mut w = ProgramWriter::new();
    w.push_pc();
    w.write(9);
    w.pop_pc();
    assert_eq!(w.pc(), 0);
    w.seek(0xFFFF);
    assert_eq!(w.pc(), 0xFFFF);
    w.write(1);
    assert_eq!(w.pc(), 0);
    assert_eq!(w.position(), 0x10000);
}

#[test]
fn pop_restores_saved_pc_across_writes_and_pairs() {
    let mut w = ProgramWriter::new();
    w.push_pc();
    w.seek(3);
    w.push_pc();
    w.write(7);
    w.seek(10);
    w.push_pc();
    w.write(8);
    w.pop_pc();
    w.write(9);
    w.pop_pc();
    w.write(6);
    w.pop_pc();
    assert_eq!(w.position(), 0);
    w.push_pc();
    w.pop_pc();
    assert_eq!(w.pc(), 0);
    assert_eq!(w.into_program().code, vec![0, 0, 0, 6, 0, 0, 0, 0, 0, 0, 9]);
}

#[test]
fn loaded_table_operands_match_value_places() {
    let mut a = Assembler::empty();
    a.load_instructions("ld ( ix + [8] ) , [8] -> DD 36 [0] [1]\nld [16] , [8] -> 01 [1] [0]");
    assert_eq!(a.parse(tokenize_line("ld (ix+1), 2")), Ok(()));
    assert_eq!(a.parse(tokenize_line("ld 0x1234, 5")), Ok(()));
    assert_eq!(a.program().code, vec![0xDD, 0x36, 1, 2, 0x01, 5, 0x34, 0x12]);
}
