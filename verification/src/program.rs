//! The program: machine code, named tags and the references to tags that the
//! linker has to fill in; and the writer that places code at a program
//! counter.
use vstd::prelude::*;
use vstd::string::StringExecFns;

verus! {

/// A place in the code that holds the value of a tag (or of an expression
/// over tags) once the program is linked.
#[derive(Debug)]
pub struct TagReference {
    pub tag: String,
    pub location: u16,
    /// size in bytes
    pub size: u8,
}

/// The value of a named tag.
#[derive(Debug, Clone, Copy)]
pub struct Tag {
    pub value: u16,
}

/// A reference as plain values.
pub struct RefView {
    pub tag: Seq<char>,
    pub location: u16,
    pub size: u8,
}

impl View for TagReference {
    type V = RefView;

    open spec fn view(&self) -> RefView {
        RefView { tag: self.tag@, location: self.location, size: self.size }
    }
}

/// The tags that a list of named entries defines: a later entry of a name
/// replaces an earlier one.
pub open spec fn tag_map(entries: Seq<(String, Tag)>) -> Map<Seq<char>, u16>
    decreases entries.len(),
{
    if entries.len() == 0 {
        Map::empty()
    } else {
        tag_map(entries.drop_last()).insert(entries.last().0@, entries.last().1.value)
    }
}

/// The value of a tag in a tag table, if it has one.
pub open spec fn tag_value(tags: Map<Seq<char>, u16>, name: Seq<char>) -> Option<u16> {
    if tags.contains_key(name) {
        Some(tags[name])
    } else {
        None
    }
}

/// The references as plain values.
pub open spec fn refs_view(refs: Seq<TagReference>) -> Seq<RefView> {
    refs.map_values(|r: TagReference| r@)
}

/// The program as plain values.
#[verifier::ext_equal]
pub struct ProgramView {
    pub tags: Map<Seq<char>, u16>,
    pub references: Seq<RefView>,
    pub code: Seq<u8>,
}

/// The program holds machine code and tags
#[derive(Debug)]
pub struct Program {
    /// Named tags; a later entry of a name replaces an earlier one.
    pub tags: Vec<(String, Tag)>,
    pub references: Vec<TagReference>,
    pub code: Vec<u8>,
}

impl View for Program {
    type V = ProgramView;

    open spec fn view(&self) -> ProgramView {
        ProgramView {
            tags: tag_map(self.tags@),
            references: refs_view(self.references@),
            code: self.code@,
        }
    }
}

/// Where no entry after position `i` names `key`, the table of the whole list
/// agrees on `key` with that of its first `i` entries.
proof fn lemma_tag_map_suffix(entries: Seq<(String, Tag)>, key: Seq<char>, i: int)
    requires
        0 <= i <= entries.len(),
        forall|j: int| i <= j < entries.len() ==> (#[trigger] entries[j]).0@ != key,
    ensures
        tag_value(tag_map(entries), key) == tag_value(tag_map(entries.take(i)), key),
    decreases entries.len() - i,
{
    if i < entries.len() {
        assert(entries.drop_last() =~= entries.take(entries.len() - 1));
        lemma_tag_map_suffix(entries.drop_last(), key, i);
        assert(entries.drop_last().take(i) == entries.take(i));
    } else {
        assert(entries.take(i) == entries);
    }
}

/// The value that a list of entries gives a name.
pub fn lookup_tag(entries: &Vec<(String, Tag)>, key: &String) -> (r: Option<u16>)
    ensures
        r == tag_value(tag_map(entries@), key@),
{
    let mut i = entries.len();
    while i > 0
        invariant
            i <= entries.len(),
            forall|j: int| i <= j < entries.len() ==> (#[trigger] entries@[j]).0@ != key@,
        decreases i,
    {
        if entries[i - 1].0 == *key {
            proof {
                lemma_tag_map_suffix(entries@, key@, i as int);
                assert(entries@.take(i as int).drop_last() == entries@.take(i - 1));
            }
            return Some(entries[i - 1].1.value);
        }
        i = i - 1;
    }
    proof {
        lemma_tag_map_suffix(entries@, key@, 0);
    }
    None
}

impl Program {
    /// An empty program.
    pub fn new() -> (p: Self)
        ensures
            p@.tags == Map::<Seq<char>, u16>::empty(),
            p@.references.len() == 0,
            p@.code.len() == 0,
    {
        Self { tags: Vec::new(), code: Vec::new(), references: Vec::new() }
    }

    /// A program of the given code, tags and references.
    pub fn from(code: Vec<u8>, tags: Vec<(String, Tag)>, references: Vec<TagReference>) -> (p: Self)
        ensures
            p.code == code,
            p.tags == tags,
            p.references == references,
    {
        Self { tags, references, code }
    }

    /// Create a tag with a given name and a given value
    pub fn add_tag(&mut self, name: String, value: u16)
        ensures
            final(self)@.tags == old(self)@.tags.insert(name@, value),
            final(self).references == old(self).references,
            final(self).code == old(self).code,
    {
        self.tags.push((name, Tag { value }));
        assert(self.tags@.drop_last() == old(self).tags@);
    }

    /// Refer to a tag.
    /// The byte will be filled with the value of the tag when the program is linked.
    pub fn add_reference(&mut self, location: u16, tag: &str, size: u8)
        ensures
            final(self).tags == old(self).tags,
            final(self)@.references == old(self)@.references.push(
                RefView { tag: tag@, location, size },
            ),
            final(self).code == old(self).code,
    {
        self.references.push(TagReference { tag: tag.to_owned(), location, size });
        assert(refs_view(self.references@) == refs_view(old(self).references@).push(
            RefView { tag: tag@, location, size },
        ));
    }

    /// The code to output: the program's code where every reference is
    /// resolved, else the list of the unresolved ones.
    pub fn dump(self) -> (r: Result<Vec<u8>, String>)
        ensures
            self@.references.len() == 0 ==> r == Ok::<Vec<u8>, String>(self.code),
            self@.references.len() > 0 ==> (r matches Err(e) && e@ == "unresolved references:\n"@
                + unresolved_list(self@.references)),
    {
        if self.references.len() > 0 {
            let mut r = String::from_str("unresolved references:\n");
            let mut i: usize = 0;
            while i < self.references.len()
                invariant
                    i <= self.references.len(),
                    r@ == "unresolved references:\n"@ + unresolved_list(
                        refs_view(self.references@).take(i as int),
                    ),
                decreases self.references.len() - i,
            {
                r.append("\t");
                r.append(self.references[i].tag.as_str());
                r.append("\n");
                proof {
                    let s = refs_view(self.references@);
                    assert(s.take(i + 1).drop_last() == s.take(i as int));
                }
                i = i + 1;
            }
            assert(refs_view(self.references@).take(i as int) == refs_view(self.references@));
            return Err(r);
        }
        Ok(self.code)
    }
}

/// The low byte of a 16-bit value.
pub open spec fn low_byte(v: u16) -> u8 {
    (v & 0xFF) as u8
}

/// The high byte of a 16-bit value.
pub open spec fn high_byte(v: u16) -> u8 {
    (v >> 8) as u8
}

/// The lines that name unresolved references: a tab, the tag, a newline.
pub open spec fn unresolved_list(refs: Seq<RefView>) -> Seq<char>
    decreases refs.len(),
{
    if refs.len() == 0 {
        Seq::empty()
    } else {
        unresolved_list(refs.drop_last()) + "\t"@ + refs.last().tag + "\n"@
    }
}

/// The code after one byte is written at position `pc`: where `pc` lies past
/// the end, the code is first padded with zero bytes up to it.
pub open spec fn code_after_write(code: Seq<u8>, pc: nat, byte: u8) -> Seq<u8> {
    if pc < code.len() {
        code.update(pc as int, byte)
    } else {
        (code + Seq::new((pc - code.len()) as nat, |i: int| 0u8)).push(byte)
    }
}

/// The writer as plain values.
#[verifier::ext_equal]
pub struct WriterView {
    pub program: ProgramView,
    pub pc: nat,
    pub pc_stack: Seq<nat>,
}

/// The writer after one byte is written at its program counter, which
/// then moves past it.
pub open spec fn write_byte(w: WriterView, byte: u8) -> WriterView {
    WriterView {
        program: ProgramView { code: code_after_write(w.program.code, w.pc, byte), ..w.program },
        pc: w.pc + 1,
        ..w
    }
}

/// The writer after the bytes are written one after the other.
pub open spec fn write_all(w: WriterView, bytes: Seq<u8>) -> WriterView
    decreases bytes.len(),
{
    if bytes.len() == 0 {
        w
    } else {
        write_byte(write_all(w, bytes.drop_last()), bytes.last())
    }
}

/// Writing bytes moves only the program counter and the code.
pub proof fn lemma_write_all_frame(w: WriterView, bytes: Seq<u8>)
    ensures
        write_all(w, bytes).pc == w.pc + bytes.len(),
        write_all(w, bytes).pc_stack == w.pc_stack,
        write_all(w, bytes).program.tags == w.program.tags,
        write_all(w, bytes).program.references == w.program.references,
    decreases bytes.len(),
{
    if bytes.len() > 0 {
        lemma_write_all_frame(w, bytes.drop_last());
    }
}

/// The writer with its program counter moved.
pub open spec fn seek_to(w: WriterView, position: u16) -> WriterView {
    WriterView { pc: position as nat, ..w }
}

/// The writer with its code padded with zero bytes up to `address`, where
/// the code ends before it.
pub open spec fn pad_to_of(w: WriterView, address: u16) -> WriterView {
    if address > w.program.code.len() {
        WriterView {
            program: ProgramView {
                code: w.program.code + Seq::new((address - w.program.code.len()) as nat, |i: int| 0u8),
                ..w.program
            },
            ..w
        }
    } else {
        w
    }
}

/// The writer with its program counter saved.
pub open spec fn push_pc_of(w: WriterView) -> WriterView {
    WriterView { pc_stack: w.pc_stack.push(w.pc), ..w }
}

/// The writer with its last saved program counter restored.
pub open spec fn pop_pc_of(w: WriterView) -> WriterView {
    WriterView { pc: w.pc_stack.last(), pc_stack: w.pc_stack.drop_last(), ..w }
}

/// The writer with a tag added to its program.
pub open spec fn add_tag_of(w: WriterView, name: Seq<char>, value: u16) -> WriterView {
    WriterView {
        program: ProgramView { tags: w.program.tags.insert(name, value), ..w.program },
        ..w
    }
}

/// The writer with a reference added to its program.
pub open spec fn add_reference_of(w: WriterView, r: RefView) -> WriterView {
    WriterView {
        program: ProgramView { references: w.program.references.push(r), ..w.program },
        ..w
    }
}

/// The program counter as the writer reports it: modulo 2^16.
pub open spec fn pc16(w: WriterView) -> u16 {
    (w.pc % 0x10000) as u16
}

/// Writes code into a program at a program counter.
pub struct ProgramWriter {
    program: Program,
    /// The current program counter (where code is inserted)
    pc: usize,
    /// The stack for remembering the location of the program counter (sometimes useful when seeking a lot)
    pc_stack: Vec<usize>,
}

impl View for ProgramWriter {
    type V = WriterView;

    closed spec fn view(&self) -> WriterView {
        WriterView {
            program: self.program@,
            pc: self.pc as nat,
            pc_stack: self.pc_stack@.map_values(|p: usize| p as nat),
        }
    }
}

impl ProgramWriter {
    /// A writer of an empty program, at address 0.
    pub fn new() -> (w: Self)
        ensures
            w@.program.tags == Map::<Seq<char>, u16>::empty(),
            w@.program.references.len() == 0,
            w@.program.code.len() == 0,
            w@.pc == 0,
            w@.pc_stack.len() == 0,
    {
        let w = Self { program: Program::new(), pc: 0, pc_stack: Vec::new() };
        assert(w@.pc_stack == Seq::<nat>::empty());
        w
    }

    /// Add a byte of code at the current location of the program counter
    pub fn write(&mut self, byte: u8)
        requires
            old(self)@.pc < usize::MAX,
        ensures
            final(self)@ == write_byte(old(self)@, byte),
    {
        let ghost old_code = self.program.code@;
        if self.pc >= self.program.code.len() {
            self.program.code.resize(self.pc + 1, 0x00);
            assert(self.program.code@ =~= (old_code + Seq::new(
                (self.pc - old_code.len()) as nat,
                |i: int| 0u8,
            )).push(0u8));
        }
        self.program.code.set(self.pc, byte);
        assert(self.program.code@ =~= code_after_write(old_code, self.pc as nat, byte));
        self.pc += 1;
        assert(self@ =~= write_byte(old(self)@, byte));
    }

    /// Get the value of the program counter
    pub fn pc(&self) -> (r: u16)
        ensures
            r == pc16(self@),
    {
        (self.pc % 0x10000) as u16
    }

    /// The full program counter.
    pub fn position(&self) -> (r: usize)
        ensures
            r == self@.pc,
    {
        self.pc
    }

    /// Set the program counter
    pub fn seek(&mut self, position: u16)
        ensures
            final(self)@ == seek_to(old(self)@, position),
    {
        self.pc = position as usize;
        assert(self@ =~= seek_to(old(self)@, position));
    }

    /// Pad the code with zero bytes up to an address past its end
    pub fn pad_to(&mut self, address: u16)
        ensures
            final(self)@ == pad_to_of(old(self)@, address),
    {
        let a = address as usize;
        if a > self.program.code.len() {
            let ghost old_code = self.program.code@;
            self.program.code.resize(a, 0x00);
            assert(self.program.code@ =~= old_code + Seq::new((a - old_code.len()) as nat, |i: int| 0u8));
            assert(self@ =~= pad_to_of(old(self)@, address));
        }
    }

    /// Save the program counter
    pub fn push_pc(&mut self)
        ensures
            final(self)@ == push_pc_of(old(self)@),
    {
        self.pc_stack.push(self.pc);
        assert(self@.pc_stack =~= old(self)@.pc_stack.push(old(self)@.pc));
        assert(self@ =~= push_pc_of(old(self)@));
    }

    /// Restore the program counter
    pub fn pop_pc(&mut self)
        requires
            old(self)@.pc_stack.len() > 0,
        ensures
            final(self)@ == pop_pc_of(old(self)@),
    {
        let p = self.pc_stack.pop();
        match p {
            Some(x) => {
                self.pc = x;
            },
            None => {},
        }
        assert(self@.pc_stack =~= old(self)@.pc_stack.drop_last());
        assert(self@ =~= pop_pc_of(old(self)@));
    }

    /// The program written so far.
    pub fn program(&self) -> (p: &Program)
        ensures
            p@ == self@.program,
    {
        &self.program
    }

    /// The program written so far, for changes other than code.
    pub fn program_mut(&mut self) -> (p: &mut Program)
        ensures
            p@ == old(self)@.program,
            final(self)@.program == final(p)@,
            final(self)@.pc == old(self)@.pc,
            final(self)@.pc_stack == old(self)@.pc_stack,
    {
        &mut self.program
    }

    /// The program written.
    pub fn into_program(self) -> (p: Program)
        ensures
            p@ == self@.program,
    {
        self.program
    }
}

} // verus!
