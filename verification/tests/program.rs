use x80::program::{lookup_tag, Program, ProgramWriter, Tag, TagReference};

#[test]
fn add_tag_replaces_earlier_value() {
    let mut p = Program::new();
    p.add_tag("a".to_string(), 1);
    p.add_tag("b".to_string(), 2);
    p.add_tag("a".to_string(), 3);
    assert_eq!(lookup_tag(&p.tags, &"a".to_string()), Some(3));
    assert_eq!(lookup_tag(&p.tags, &"b".to_string()), Some(2));
    assert_eq!(lookup_tag(&p.tags, &"c".to_string()), None);
}

#[test]
fn add_reference_appends() {
    let mut p = Program::new();
    p.add_reference(4, "x", 2);
    p.add_reference(9, "y", 1);
    assert_eq!(p.references.len(), 2);
    assert_eq!(p.references[1].tag, "y");
    assert_eq!(p.references[1].location, 9);
    assert_eq!(p.references[1].size, 1);
}

#[test]
fn dump_without_references_gives_code() {
    let p = Program::from(vec![1, 2, 3], Vec::new(), Vec::new());
    assert_eq!(p.dump(), Ok(vec![1, 2, 3]));
}

#[test]
fn dump_lists_unresolved_references() {
    let refs = vec![
        TagReference { tag: "foo".to_string(), location: 0, size: 2 },
        TagReference { tag: "bar".to_string(), location: 2, size: 1 },
    ];
    let p = Program::from(vec![0, 0, 0], vec![("x".to_string(), Tag { value: 1 })], refs);
    assert_eq!(p.dump(), Err("unresolved references:\n\tfoo\n\tbar\n".to_string()));
}

#[test]
fn writer_pads_with_zeros() {
    let mut w = ProgramWriter::new();
    w.write(0xAA);
    w.seek(4);
    assert_eq!(w.pc(), 4);
    w.write(0xBB);
    assert_eq!(w.pc(), 5);
    assert_eq!(w.program().code, vec![0xAA, 0, 0, 0, 0xBB]);
    w.seek(1);
    w.write(0xCC);
    assert_eq!(w.into_program().code, vec![0xAA, 0xCC, 0, 0, 0xBB]);
}

#[test]
fn writer_push_then_pop_restores_pc() {
    let mut w = ProgramWriter::new();
    w.seek(7);
    w.push_pc();
    w.seek(100);
    w.write(1);
    w.pop_pc();
    assert_eq!(w.pc(), 7);
    assert_eq!(w.position(), 7);
}

#[test]
fn writer_program_mut_adds_tags() {
    let mut w = ProgramWriter::new();
    w.program_mut().add_tag("t".to_string(), 9);
    assert_eq!(lookup_tag(&w.program().tags, &"t".to_string()), Some(9));
}
