use x80::linker::Linker;
use x80::program::{lookup_tag, Program, Tag, TagReference};

fn tags(v: &[(&str, u16)]) -> Vec<(String, Tag)> {
    v.iter().map(|(n, x)| (n.to_string(), Tag { value: *x })).collect()
}

fn reference(tag: &str, location: u16, size: u8) -> TagReference {
    TagReference { tag: tag.to_string(), location, size }
}

fn link(code: Vec<u8>, t: &[(&str, u16)], refs: Vec<TagReference>) -> Result<Program, String> {
    let mut l = Linker::new();
    l.set_program(Program::from(code, tags(t), refs));
    l.run()
}

#[test]
fn fills_two_byte_references_low_byte_first() {
    let p = link(vec![0xC3, 0, 0], &[("start", 0x1234)], vec![reference("start", 1, 2)]).unwrap();
    assert_eq!(p.code, vec![0xC3, 0x34, 0x12]);
    assert!(p.references.is_empty());
}

#[test]
fn fills_one_byte_references() {
    let p = link(vec![0x3E, 0], &[("x", 0x1234)], vec![reference("x", 1, 1)]).unwrap();
    assert_eq!(p.code, vec![0x3E, 0x34]);
}

#[test]
fn keeps_unresolved_references_in_order() {
    let p = link(
        vec![0; 6],
        &[("a", 1)],
        vec![reference("u1", 0, 2), reference("a", 2, 2), reference("u2", 4, 2)],
    )
    .unwrap();
    assert_eq!(p.code, vec![0, 0, 1, 0, 0, 0]);
    let names: Vec<String> = p.references.iter().map(|r| r.tag.clone()).collect();
    assert_eq!(names, vec!["u1", "u2"]);
    assert_eq!(p.dump(), Err("unresolved references:\n\tu1\n\tu2\n".to_string()));
}

#[test]
fn evaluates_expressions_from_the_left() {
    let p = link(
        vec![0; 8],
        &[("a", 10), ("b", 3)],
        vec![
            reference("a+b", 0, 2),
            reference("a - b * 2", 2, 2),
            reference("a-(b*2)", 4, 2),
            reference("a/b", 6, 2),
        ],
    )
    .unwrap();
    assert_eq!(p.code, vec![13, 0, 14, 0, 4, 0, 3, 0]);
}

#[test]
fn numbers_and_negative_results_in_expressions() {
    let p = link(vec![0; 4], &[("b", 3)], vec![reference("b - 0x10", 0, 2), reference("1 - 2", 2, 1)]).unwrap();
    assert_eq!(p.code, vec![0xF3, 0xFF, 0xFF, 0]);
}

#[test]
fn unknown_names_leave_expressions_unresolved() {
    let p = link(vec![0; 2], &[("a", 1)], vec![reference("a+zz", 0, 2)]).unwrap();
    assert_eq!(p.references.len(), 1);
    assert_eq!(p.code, vec![0, 0]);
}

#[test]
fn invalid_reference_size_is_an_error() {
    let r = link(vec![0; 4], &[("a", 1)], vec![reference("a", 0, 3)]);
    assert_eq!(r.err(), Some("invalid tag size of 3".to_string()));
}

#[test]
fn division_by_zero_is_a_fault() {
    let mut l = Linker::new();
    l.set_program(Program::from(vec![0; 2], tags(&[("z", 0)]), vec![reference("1/z", 0, 2)]));
    assert!(l.try_run().is_none());
}

#[test]
fn overflow_is_a_fault() {
    let mut l = Linker::new();
    l.set_program(Program::from(vec![0; 2], Vec::new(), vec![reference("30000+30000", 0, 2)]));
    assert!(l.try_run().is_none());
}

#[test]
fn location_past_the_end_is_a_fault() {
    let mut l = Linker::new();
    l.set_program(Program::from(vec![0; 2], tags(&[("a", 1)]), vec![reference("a", 1, 2)]));
    assert!(l.try_run().is_none());
}

#[test]
fn programs_are_concatenated() {
    let mut l = Linker::new();
    l.set_program(Program::from(vec![1, 2], tags(&[("a", 1), ("b", 2)]), Vec::new()));
    l.set_program(Program::from(vec![3], tags(&[("a", 5)]), vec![reference("b", 2, 1)]));
    let p = l.run().unwrap();
    assert_eq!(p.code, vec![1, 2, 2]);
    assert_eq!(lookup_tag(&p.tags, &"a".to_string()), Some(5));
    assert_eq!(lookup_tag(&p.tags, &"b".to_string()), Some(2));
}

#[test]
fn later_reference_wins_on_overlap() {
    let p = link(vec![0; 3], &[("a", 0x0102), ("b", 0x0304)], vec![reference("a", 0, 2), reference("b", 1, 2)]).unwrap();
    assert_eq!(p.code, vec![0x02, 0x04, 0x03]);
}

#[test]
fn relinking_a_linked_program_changes_nothing() {
    let p = link(
        vec![0; 6],
        &[("a", 0x0102)],
        vec![reference("u1", 0, 2), reference("a", 2, 2), reference("a+1", 4, 1)],
    )
    .unwrap();
    assert_eq!(p.code, vec![0, 0, 2, 1, 3, 0]);
    let kept: Vec<TagReference> = p.references.iter().map(|r| reference(&r.tag, r.location, r.size)).collect();
    let q = link(p.code.clone(), &[("a", 0x0102)], kept).unwrap();
    assert_eq!(q.code, p.code);
    assert_eq!(q.references.len(), 1);
    assert_eq!(q.references[0].tag, "u1");
}
