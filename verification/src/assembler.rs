//! The assembler: turns tokenized lines into machine code, tags and
//! references, with namespaces and static variables.
use vstd::prelude::*;
use vstd::string::StringExecFns;
use crate::number::{number_panics, number_value, scan_number};
use crate::opcodes::{OpcodeTable, OpcodeView, TableView, Token, TokenView, tokens_view};
use crate::opcode_table::OPCODES;
use crate::parser::strings_view;
use crate::program::{
    add_reference_of, add_tag_of, high_byte, low_byte, pad_to_of, pc16, pop_pc_of, push_pc_of, seek_to,
    write_all, write_byte, Program, ProgramWriter, RefView, WriterView,
};
use crate::text::{chars_of, decimal, decimal_string, string_of, sub_chars};

verus! {

/// The assembler as plain values.
#[verifier::ext_equal]
pub struct AsmView {
    pub table: TableView,
    /// The namespaces open, outermost first.
    pub scopes: Seq<Seq<char>>,
    pub writer: WriterView,
    /// The number of the next anonymous namespace.
    pub anon: int,
    /// Where the next static variable is allocated.
    pub allocator: u16,
}

/// What a line does to the assembler: its new state and its result, or a
/// fault, where the line panics: an arithmetic overflow, a program counter
/// past the largest `usize`, an empty token alone on the line, a number
/// token that reading would cut inside a character, or an instruction whose
/// table entry lacks an operand or has one of another size than 1 or 2
/// (which a table loaded from text never has).
pub enum AsmOutcome {
    Done(AsmView, Result<(), Seq<char>>),
    Fault,
}

/// The prefix that puts a name into the given namespaces: each of them,
/// outermost first, followed by `__`.
pub open spec fn qualify(scopes: Seq<Seq<char>>) -> Seq<char>
    decreases scopes.len(),
{
    if scopes.len() == 0 {
        Seq::empty()
    } else {
        qualify(scopes.drop_last()) + scopes.last() + "__"@
    }
}

/// The prefix for a name `level` namespaces out from the current one;
/// `None` where there are not that many.
pub open spec fn scope_prefix(scopes: Seq<Seq<char>>, level: nat) -> Option<Seq<char>> {
    if level > scopes.len() {
        None
    } else {
        Some(qualify(scopes.take(scopes.len() - level)))
    }
}

/// How far a reference's name has been read: the global name so far and the
/// number of `@` just read; or too many `@` for the namespaces open.
pub enum NameScan {
    Scanning { name: Seq<char>, ats: nat },
    TooMany,
}

/// Reads a reference's name: a run of `n` `@` before a character stands for
/// the prefix of the namespace `n - 1` levels out (so `@x` is `x` in the
/// current namespace, `@@x` in its parent); other characters are kept, and
/// `@` at the very end are dropped.
pub open spec fn scan_name(scopes: Seq<Seq<char>>, tag: Seq<char>) -> NameScan
    decreases tag.len(),
{
    if tag.len() == 0 {
        NameScan::Scanning { name: Seq::empty(), ats: 0 }
    } else {
        match scan_name(scopes, tag.drop_last()) {
            NameScan::TooMany => NameScan::TooMany,
            NameScan::Scanning { name, ats } => {
                let c = tag.last();
                if c == '@' {
                    NameScan::Scanning { name, ats: ats + 1 }
                } else if ats != 0 {
                    match scope_prefix(scopes, (ats - 1) as nat) {
                        None => NameScan::TooMany,
                        Some(p) => NameScan::Scanning { name: name + p + seq![c], ats: 0 },
                    }
                } else {
                    NameScan::Scanning { name: name.push(c), ats: 0 }
                }
            },
        }
    }
}

/// The global name that a reference stands for, or `None` where it has more
/// `@` than there are namespaces.
pub open spec fn global_name(scopes: Seq<Seq<char>>, tag: Seq<char>) -> Option<Seq<char>> {
    match scan_name(scopes, tag) {
        NameScan::Scanning { name, .. } => Some(name),
        NameScan::TooMany => None,
    }
}

/// The state with a different writer.
pub open spec fn with_writer(s: AsmView, w: WriterView) -> AsmView {
    AsmView { writer: w, ..s }
}

/// The state with a tag defined in the current namespace.
pub open spec fn define_tag(s: AsmView, name: Seq<char>, value: u16) -> AsmView {
    with_writer(s, add_tag_of(s.writer, qualify(s.scopes) + name, value))
}

/// Whether writing `n` bytes would run the program counter past the largest
/// `usize`.
pub open spec fn write_faults(w: WriterView, n: nat) -> bool {
    w.pc + n > usize::MAX
}

/// The message for a number out of a one-byte operand's range.
pub open spec fn not_8_bit_message(x: i32) -> Seq<char> {
    decimal(x as int) + " is not an 8-bit number!"@
}

/// The message for a number out of a two-byte operand's range.
pub open spec fn not_16_bit_message(x: i32) -> Seq<char> {
    decimal(x as int) + " is not a 16-bit number!"@
}

/// Writes an operand at the program counter: a number as one byte, or as
/// two with the low byte first; else a reference to the name, which the
/// linker fills in, with zero bytes in its place (two of them for a
/// one-byte operand, one for a two-byte operand).
pub open spec fn parse_value(s: AsmView, value: Seq<char>, size: u8) -> AsmOutcome {
    let w = s.writer;
    if number_panics(value) {
        AsmOutcome::Fault
    } else {
        match number_value(value) {
            Some(x) => if size == 1 {
                if 0 <= x <= 255 {
                    if write_faults(w, 1) {
                        AsmOutcome::Fault
                    } else {
                        AsmOutcome::Done(with_writer(s, write_byte(w, x as u8)), Ok(()))
                    }
                } else {
                    AsmOutcome::Done(s, Err(not_8_bit_message(x)))
                }
            } else if size == 2 {
                if 0 <= x <= 65535 {
                    if write_faults(w, 2) {
                        AsmOutcome::Fault
                    } else {
                        AsmOutcome::Done(
                            with_writer(
                                s,
                                write_byte(write_byte(w, low_byte(x as u16)), high_byte(x as u16)),
                            ),
                            Ok(()),
                        )
                    }
                } else {
                    AsmOutcome::Done(s, Err(not_16_bit_message(x)))
                }
            } else {
                AsmOutcome::Fault
            },
            None => if size == 1 || size == 2 {
                match global_name(s.scopes, value) {
                    None => AsmOutcome::Done(s, Err("Too many @ symbols"@)),
                    Some(n) => {
                        let w1 = add_reference_of(w, RefView { tag: n, location: pc16(w), size });
                        let zeros: nat = if size == 1 { 2 } else { 1 };
                        if write_faults(w1, zeros) {
                            AsmOutcome::Fault
                        } else {
                            AsmOutcome::Done(
                                with_writer(s, write_all(w1, Seq::new(zeros, |i: int| 0u8))),
                                Ok(()),
                            )
                        }
                    },
                }
            } else {
                AsmOutcome::Done(s, Err("only 16 and 8-bit labels are currently supported"@))
            },
        }
    }
}

/// The operands of an instruction whose bytes are written: for the `i`-th
/// token on, each value token in turn (the `k`-th operand on) is written at
/// its operand's place, found back from the program counter; the program
/// counter is saved before and restored after. An error stops the line
/// (the saved program counter is then not restored).
pub open spec fn place_operands(
    s: AsmView,
    instr: Seq<Seq<char>>,
    toks: Seq<TokenView>,
    op: OpcodeView,
    i: nat,
    k: nat,
) -> AsmOutcome
    decreases instr.len() - i,
{
    if i >= instr.len() || i >= toks.len() {
        AsmOutcome::Done(s, Ok(()))
    } else if toks[i as int] is Value {
        if k >= op.operands.len() {
            AsmOutcome::Fault
        } else {
            let operand = op.operands[k as int];
            let pc = pc16(s.writer) as int;
            let len = (op.bytes.len() as u16) as int;
            if pc < len || pc - len + operand.position > 0xFFFF {
                AsmOutcome::Fault
            } else {
                let w1 = seek_to(push_pc_of(s.writer), (pc - len + operand.position) as u16);
                match parse_value(with_writer(s, w1), instr[i as int], operand.size) {
                    AsmOutcome::Fault => AsmOutcome::Fault,
                    AsmOutcome::Done(s2, Err(e)) => AsmOutcome::Done(s2, Err(e)),
                    AsmOutcome::Done(s2, Ok(())) => place_operands(
                        with_writer(s2, pop_pc_of(s2.writer)),
                        instr,
                        toks,
                        op,
                        i + 1,
                        k + 1,
                    ),
                }
            }
        }
    } else {
        place_operands(s, instr, toks, op, i + 1, k)
    }
}

/// A word as a pattern token: a keyword of the table, else a value.
pub open spec fn analyze(t: TableView, word: Seq<char>) -> TokenView {
    if t.keywords.contains(word) {
        TokenView::Keyword(word)
    } else {
        TokenView::Value
    }
}

/// An instruction line: its pattern must be in the table; its bytes are
/// written at the program counter, then its operands in their places.
pub open spec fn assemble(s: AsmView, instr: Seq<Seq<char>>) -> AsmOutcome {
    let toks = instr.map_values(|w: Seq<char>| analyze(s.table, w));
    if !s.table.opcodes.contains_key(toks) {
        AsmOutcome::Done(s, Err("syntax error"@))
    } else {
        let op = s.table.opcodes[toks];
        if write_faults(s.writer, op.bytes.len()) {
            AsmOutcome::Fault
        } else {
            place_operands(with_writer(s, write_all(s.writer, op.bytes)), instr, toks, op, 0, 0)
        }
    }
}

/// The name of the `n`-th anonymous namespace.
pub open spec fn anon_name(n: int) -> Seq<char> {
    "_anon_"@ + decimal(n) + "_"@
}

/// The error for a number that cannot be read.
pub open spec fn cannot_parse_message() -> Seq<char> {
    "cannot parse number"@
}

/// What a statement (a line of tokens without its comment) does to the
/// assembler:
/// - no tokens: nothing;
/// - `@end`: closes the innermost namespace (an error in the global one);
/// - `@scope`: opens the next anonymous namespace;
/// - `x:`: where `x` is a number, pads the code with zero bytes up to that
///   address (where the code ends before it) and moves the program counter
///   there; else defines the tag `x` at the program counter;
/// - `@string s`: writes the UTF-8 bytes of `s`;
/// - `@mod n`: opens the namespace `n`; `@function n` also defines the tag
///   `n` at the program counter (in the namespace outside);
/// - `@alloc_from a`: static variables are allocated from `a` on;
/// - `@define n v`: defines the tag `n` with the value `v`;
/// - `@alloc n size`: defines the tag `n` at the allocation address, which
///   then moves on by `size`;
/// - anything else is an instruction (see `assemble`).
pub open spec fn parse_statement(s: AsmView, instr: Seq<Seq<char>>) -> AsmOutcome {
    let n = instr.len();
    let w = s.writer;
    if n == 0 {
        AsmOutcome::Done(s, Ok(()))
    } else if n == 1 && instr[0] == "@end"@ {
        if s.scopes.len() == 0 {
            AsmOutcome::Done(s, Err("@end called in global scope!"@))
        } else {
            AsmOutcome::Done(AsmView { scopes: s.scopes.drop_last(), ..s }, Ok(()))
        }
    } else if n == 1 && instr[0] == "@scope"@ {
        if s.anon >= i32::MAX {
            AsmOutcome::Fault
        } else {
            AsmOutcome::Done(
                AsmView { scopes: s.scopes.push(anon_name(s.anon)), anon: s.anon + 1, ..s },
                Ok(()),
            )
        }
    } else if n == 1 && instr[0].len() == 0 {
        AsmOutcome::Fault
    } else if n == 1 && instr[0].last() == ':' {
        let label = instr[0].drop_last();
        if number_panics(label) {
            AsmOutcome::Fault
        } else {
            match number_value(label) {
                Some(x) => AsmOutcome::Done(
                    with_writer(s, seek_to(pad_to_of(w, x as u16), x as u16)),
                    Ok(()),
                ),
                None => AsmOutcome::Done(define_tag(s, label, pc16(w)), Ok(())),
            }
        }
    } else if n == 2 && instr[0] == "@string"@ {
        let bytes = vstd::utf8::encode_utf8(instr[1]);
        if write_faults(w, bytes.len()) {
            AsmOutcome::Fault
        } else {
            AsmOutcome::Done(with_writer(s, write_all(w, bytes)), Ok(()))
        }
    } else if n == 2 && instr[0] == "@mod"@ {
        AsmOutcome::Done(AsmView { scopes: s.scopes.push(instr[1]), ..s }, Ok(()))
    } else if n == 2 && instr[0] == "@function"@ {
        let s1 = define_tag(s, instr[1], pc16(w));
        AsmOutcome::Done(AsmView { scopes: s1.scopes.push(instr[1]), ..s1 }, Ok(()))
    } else if n == 2 && instr[0] == "@alloc_from"@ {
        if number_panics(instr[1]) {
            AsmOutcome::Fault
        } else {
            match number_value(instr[1]) {
                Some(x) => AsmOutcome::Done(AsmView { allocator: x as u16, ..s }, Ok(())),
                None => AsmOutcome::Done(s, Err(cannot_parse_message())),
            }
        }
    } else if n == 3 && instr[0] == "@define"@ {
        if number_panics(instr[2]) {
            AsmOutcome::Fault
        } else {
            match number_value(instr[2]) {
                Some(x) => AsmOutcome::Done(define_tag(s, instr[1], x as u16), Ok(())),
                None => AsmOutcome::Done(s, Err(cannot_parse_message())),
            }
        }
    } else if n == 3 && instr[0] == "@alloc"@ {
        let s1 = define_tag(s, instr[1], s.allocator);
        if number_panics(instr[2]) {
            AsmOutcome::Fault
        } else {
            match number_value(instr[2]) {
                Some(x) => if s.allocator + (x as u16) > 0xFFFF {
                    AsmOutcome::Fault
                } else {
                    AsmOutcome::Done(
                        AsmView { allocator: (s.allocator + (x as u16)) as u16, ..s1 },
                        Ok(()),
                    )
                },
                None => AsmOutcome::Done(s1, Err(cannot_parse_message())),
            }
        }
    } else {
        assemble(s, instr)
    }
}

/// Where the comment of a line starts: at its first token `@` (but for the
/// text right after `@string`, which may be `{@}`), or at its end.
pub open spec fn comment_start(instr: Seq<Seq<char>>) -> int
    decreases instr.len(),
{
    if instr.len() == 0 {
        0
    } else if comment_start(instr.drop_last()) < instr.len() - 1 {
        comment_start(instr.drop_last())
    } else if instr.last() == "@"@ && !(instr.len() == 2 && instr[0] == "@string"@) {
        instr.len() - 1
    } else {
        instr.len() as int
    }
}

/// What a line of tokens does to the assembler: its tokens from the token
/// `@` that starts its comment on (see `comment_start`) are a comment, and
/// the statement before it is carried out (see `parse_statement`).
pub open spec fn parse_line(s: AsmView, instr: Seq<Seq<char>>) -> AsmOutcome {
    parse_statement(s, instr.take(comment_start(instr)))
}

/// A table with no keywords and no instructions.
pub open spec fn empty_table() -> TableView {
    TableView { keywords: Set::empty(), opcodes: Map::empty() }
}

/// The table that the z80 instruction text `OPCODES` loads into an empty
/// one (as far as its lines can be read).
pub open spec fn bundled_table() -> TableView {
    match crate::opcodes::load_lines(empty_table(), crate::opcodes::text_lines(OPCODES@)) {
        Ok(t) => t,
        Err(t) => t,
    }
}

/// The result of a line as plain values.
pub open spec fn result_view(r: Result<(), String>) -> Result<(), Seq<char>> {
    match r {
        Ok(()) => Ok(()),
        Err(e) => Err(e@),
    }
}

/// Parses instructions into machine code.
pub struct Assembler {
    table: OpcodeTable,
    scopes: Vec<String>,
    program: ProgramWriter,
    anon_generator: i32,
    allocator: u16,
}

impl View for Assembler {
    type V = AsmView;

    closed spec fn view(&self) -> AsmView {
        AsmView {
            table: self.table@,
            scopes: strings_view(self.scopes@),
            writer: self.program@,
            anon: self.anon_generator as int,
            allocator: self.allocator,
        }
    }
}

/// Whether a string is the given word.
fn is_word(s: &String, w: &str) -> (r: bool)
    ensures
        r == (s@ == w@),
{
    let ws = String::from_str(w);
    *s == ws
}

impl Assembler {
    /// An assembler with an empty instruction table and no code, outside any
    /// namespace, allocating static variables from 0xFFFF.
    pub fn empty() -> (a: Self)
        ensures
            a@.table == empty_table(),
            a@.scopes.len() == 0,
            a@.writer.program.tags == Map::<Seq<char>, u16>::empty(),
            a@.writer.program.references.len() == 0,
            a@.writer.program.code.len() == 0,
            a@.writer.pc == 0,
            a@.writer.pc_stack.len() == 0,
            a@.anon == 0,
            a@.allocator == 0xFFFF,
    {
        let a = Self {
            table: OpcodeTable::new(),
            scopes: Vec::new(),
            program: ProgramWriter::new(),
            anon_generator: 0,
            allocator: 0xFFFF,
        };
        assert(a@.table =~= empty_table());
        a
    }

    /// An assembler with the z80 instruction table (`OPCODES`) loaded and
    /// no code, outside any namespace, allocating static variables from
    /// 0xFFFF.
    pub fn new() -> (a: Self)
        ensures
            a@.table == bundled_table(),
            crate::opcodes::valid_table(a@.table),
            a@.scopes.len() == 0,
            a@.writer.program.tags == Map::<Seq<char>, u16>::empty(),
            a@.writer.program.references.len() == 0,
            a@.writer.program.code.len() == 0,
            a@.writer.pc == 0,
            a@.writer.pc_stack.len() == 0,
            a@.anon == 0,
            a@.allocator == 0xFFFF,
    {
        let mut a = Self::empty();
        let _ = a.try_load_instructions(OPCODES);
        a
    }

    /// Loads the instruction table from its text: each non-blank line is a
    /// pattern of words separated by spaces (`[8]` and `[16]` for one- and
    /// two-byte values), `->`, and the code: hexadecimal bytes, and `[k]`
    /// where operand `k` goes. The text must be well formed (reading a
    /// malformed line panics).
    pub fn load_instructions(&mut self, table: &str)
        requires
            crate::opcodes::table_well_formed(table@),
        ensures
            crate::opcodes::load_lines(old(self)@.table, crate::opcodes::text_lines(table@)) matches Ok(t)
                && final(self)@ == (AsmView { table: t, ..old(self)@ }),
            crate::opcodes::valid_table(old(self)@.table) ==> crate::opcodes::valid_table(
                final(self)@.table,
            ),
    {
        proof {
            crate::opcodes::lemma_load_ok_iff_well_formed(self@.table, crate::opcodes::text_lines(table@));
        }
        let _ = self.try_load_instructions(table);
    }

    /// Loads the instruction table as `load_instructions` does where the text
    /// is well formed; where a line is malformed, the error
    /// `wrong opcode syntax!` in place of the panic, with the lines before it
    /// loaded.
    pub fn try_load_instructions(&mut self, table: &str) -> (r: Result<(), String>)
        ensures
            r is Ok <==> crate::opcodes::table_well_formed(table@),
            match crate::opcodes::load_lines(old(self)@.table, crate::opcodes::text_lines(table@)) {
                Ok(t) => r is Ok && final(self)@ == (AsmView { table: t, ..old(self)@ }),
                Err(t) => r matches Err(e) && e@ == "wrong opcode syntax!"@ && final(self)@
                    == (AsmView { table: t, ..old(self)@ }),
            },
            crate::opcodes::valid_table(old(self)@.table) ==> crate::opcodes::valid_table(
                final(self)@.table,
            ),
    {
        proof {
            crate::opcodes::lemma_load_ok_iff_well_formed(self@.table, crate::opcodes::text_lines(table@));
            if crate::opcodes::valid_table(self@.table) {
                crate::opcodes::lemma_load_keeps_valid(self@.table, crate::opcodes::text_lines(table@));
            }
        }
        let ok = self.table.load(table);
        assert(self@ =~= AsmView { table: self.table@, ..old(self)@ });
        if ok {
            Ok(())
        } else {
            Err(String::from_str("wrong opcode syntax!"))
        }
    }

    /// Destroys self and gives back its program
    pub fn program(self) -> (p: Program)
        ensures
            p@ == self@.writer.program,
    {
        self.program.into_program()
    }

    /// What prefix to use for a global name based on the local name
    fn scope_prefix(&self, level: usize) -> (r: Result<String, String>)
        ensures
            match scope_prefix(self@.scopes, level as nat) {
                Some(p) => r matches Ok(x) && x@ == p,
                None => r matches Err(e) && e@ == "Too many @ symbols"@,
            },
    {
        if level > self.scopes.len() {
            return Err(String::from_str("Too many @ symbols"));
        }
        let n = self.scopes.len() - level;
        let ghost sv = strings_view(self.scopes@);
        let mut r = String::new();
        let mut i: usize = 0;
        assert(sv.take(0) =~= Seq::<Seq<char>>::empty());
        while i < n
            invariant
                i <= n <= self.scopes.len(),
                sv == strings_view(self.scopes@),
                r@ == qualify(sv.take(i as int)),
            decreases n - i,
        {
            r.append(self.scopes[i].as_str());
            r.append("__");
            assert(sv.take(i + 1).drop_last() == sv.take(i as int));
            i = i + 1;
        }
        assert(sv.take(n as int) == self@.scopes.take(self@.scopes.len() - level));
        Ok(r)
    }

    fn add_tag(&mut self, name: &String, value: u16) -> (r: Result<(), String>)
        ensures
            r is Ok,
            final(self)@ == define_tag(old(self)@, name@, value),
    {
        let prefix = match self.scope_prefix(0) {
            Ok(p) => p,
            Err(e) => {
                return Err(e);
            },
        };
        assert(self@.scopes.take(self@.scopes.len() - 0) == self@.scopes);
        let full = prefix.concat(name.as_str());
        let ghost w0 = self.program@;
        let p = self.program.program_mut();
        p.add_tag(full, value);
        assert(self.program@ =~= add_tag_of(w0, qualify(old(self)@.scopes) + name@, value));
        assert(self@ =~= define_tag(old(self)@, name@, value));
        Ok(())
    }

    /// Create a tag reference, resolving local names
    fn add_reference(&mut self, tag: &String, location: u16, size: u8) -> (r: Result<(), String>)
        ensures
            match global_name(old(self)@.scopes, tag@) {
                Some(n) => r is Ok && final(self)@ == with_writer(
                    old(self)@,
                    add_reference_of(old(self)@.writer, RefView { tag: n, location, size }),
                ),
                None => r matches Err(e) && e@ == "Too many @ symbols"@ && final(self)@ == old(self)@,
            },
    {
        let chars = chars_of(tag.as_str());
        let mut real_name = String::new();
        let mut at_count: usize = 0;
        let mut i: usize = 0;
        assert(chars@.take(0) =~= Seq::<char>::empty());
        while i < chars.len()
            invariant
                i <= chars.len(),
                chars@ == tag@,
                at_count <= i,
                self@ == old(self)@,
                scan_name(self@.scopes, chars@.take(i as int)) == (NameScan::Scanning {
                    name: real_name@,
                    ats: at_count as nat,
                }),
            decreases chars.len() - i,
        {
            let c = chars[i];
            assert(chars@.take(i + 1).drop_last() == chars@.take(i as int));
            assert(chars@.take(i + 1).last() == c);
            let ghost name0 = real_name@;
            if c == '@' {
                at_count += 1;
            } else {
                if at_count != 0 {
                    match self.scope_prefix(at_count - 1) {
                        Ok(p) => {
                            real_name.append(p.as_str());
                        },
                        Err(e) => {
                            proof {
                                lemma_scan_too_many_stays(self@.scopes, chars@, i + 1);
                            }
                            return Err(e);
                        },
                    }
                    at_count = 0;
                }
                let ghost mid = real_name@;
                crate::text::push_char(&mut real_name, c);
                assert(real_name@ =~= mid + seq![c]);
            }
            i = i + 1;
        }
        assert(chars@.take(chars.len() as int) == chars@);
        let ghost w0 = self.program@;
        let p = self.program.program_mut();
        p.add_reference(location, real_name.as_str(), size);
        assert(self.program@ =~= add_reference_of(w0, RefView { tag: real_name@, location, size }));
        assert(self@ =~= with_writer(old(self)@, self.program@));
        Ok(())
    }

    /// Tries to parse value as number, creates a tag reference if unable to
    /// do so. `None` on a fault.
    fn parse_value(&mut self, value: &String, size: u8) -> (r: Option<Result<(), String>>)
        ensures
            match parse_value(old(self)@, value@, size) {
                AsmOutcome::Fault => r is None,
                AsmOutcome::Done(s, res) => r matches Some(x) && final(self)@ == s && result_view(x)
                    == res,
            },
    {
        let chars = chars_of(value.as_str());
        match scan_number(&chars) {
            None => None,
            Some(Some(x)) => {
                if size == 1 {
                    if 0 <= x && x <= 255 {
                        if self.program.position() == usize::MAX {
                            return None;
                        }
                        self.program.write(x as u8);
                        assert(self@ =~= with_writer(old(self)@, write_byte(old(self)@.writer, x as u8)));
                        Some(Ok(()))
                    } else {
                        Some(Err(number_message(x, " is not an 8-bit number!")))
                    }
                } else if size == 2 {
                    if 0 <= x && x <= 65535 {
                        if self.program.position() > usize::MAX - 2 {
                            return None;
                        }
                        let v = x as u16;
                        self.program.write(#[verifier::truncate] ((v & 0xFF) as u8));
                        self.program.write(#[verifier::truncate] ((v >> 8) as u8));
                        assert(self@ =~= with_writer(
                            old(self)@,
                            write_byte(write_byte(old(self)@.writer, low_byte(x as u16)), high_byte(x as u16)),
                        ));
                        Some(Ok(()))
                    } else {
                        Some(Err(number_message(x, " is not a 16-bit number!")))
                    }
                } else {
                    None
                }
            },
            Some(None) => {
                if size == 1 || size == 2 {
                    let pc = self.program.pc();
                    match self.add_reference(value, pc, size) {
                        Err(e) => Some(Err(e)),
                        Ok(()) => {
                            let ghost w1 = self.program@;
                            if size == 1 {
                                if self.program.position() > usize::MAX - 2 {
                                    return None;
                                }
                                self.program.write(0x00);
                                self.program.write(0x00);
                                proof {
                                    let z = Seq::new(2, |i: int| 0u8);
                                    assert(z.drop_last() =~= Seq::new(1, |i: int| 0u8));
                                    assert(z.drop_last().drop_last() =~= Seq::<u8>::empty());
                                    assert(z.last() == 0u8 && z.drop_last().last() == 0u8);
                                    reveal_with_fuel(write_all, 3);
                                    assert(write_all(w1, z) == write_byte(write_byte(w1, 0), 0));
                                }
                            } else {
                                if self.program.position() == usize::MAX {
                                    return None;
                                }
                                self.program.write(0x00);
                                proof {
                                    let z = Seq::new(1, |i: int| 0u8);
                                    assert(z.drop_last() =~= Seq::<u8>::empty());
                                    assert(z.last() == 0u8);
                                    reveal_with_fuel(write_all, 2);
                                    assert(write_all(w1, z) == write_byte(w1, 0));
                                }
                            }
                            assert(self@ =~= with_writer(old(self)@, self.program@));
                            Some(Ok(()))
                        },
                    }
                } else {
                    Some(Err(String::from_str("only 16 and 8-bit labels are currently supported")))
                }
            },
        }
    }

    /// The instruction line, as `assemble` says; `None` on a fault.
    fn assemble(&mut self, instruction: &Vec<String>) -> (r: Option<Result<(), String>>)
        ensures
            match assemble(old(self)@, strings_view(instruction@)) {
                AsmOutcome::Fault => r is None,
                AsmOutcome::Done(s, res) => r matches Some(x) && final(self)@ == s && result_view(x)
                    == res,
            },
    {
        let ghost iv = strings_view(instruction@);
        let ghost s0 = self@;
        let ghost toks = iv.map_values(|w: Seq<char>| analyze(s0.table, w));
        let n = instruction.len();
        let mut analyzed: Vec<Token> = Vec::new();
        let mut i: usize = 0;
        while i < n
            invariant
                i <= n == instruction.len(),
                self@ == s0,
                iv == strings_view(instruction@),
                toks == iv.map_values(|w: Seq<char>| analyze(s0.table, w)),
                tokens_view(analyzed@) == toks.take(i as int),
            decreases n - i,
        {
            let t = self.analyze(&instruction[i]);
            let ghost before = tokens_view(analyzed@);
            analyzed.push(t);
            assert(tokens_view(analyzed@) =~= before.push(t@));
            assert(toks.take(i + 1) =~= toks.take(i as int).push(toks[i as int]));
            i = i + 1;
        }
        assert(toks.take(n as int) =~= toks);
        let opcode = match self.table.lookup(&analyzed) {
            None => {
                return Some(Err(String::from_str("syntax error")));
            },
            Some(op) => copy_opcode(op),
        };
        let ghost opv = opcode@;
        let nb = opcode.bytes.len();
        if self.program.position() > usize::MAX - nb {
            return None;
        }
        let ghost w0 = self.program@;
        let mut j: usize = 0;
        assert(opcode.bytes@.take(0) =~= Seq::<u8>::empty());
        while j < nb
            invariant
                j <= nb == opcode.bytes.len(),
                w0.pc + nb <= usize::MAX,
                self.program@ == write_all(w0, opcode.bytes@.take(j as int)),
                self.program@.pc == w0.pc + j,
                self@ == with_writer(s0, self.program@),
            decreases nb - j,
        {
            assert(opcode.bytes@.take(j + 1).drop_last() == opcode.bytes@.take(j as int));
            self.program.write(opcode.bytes[j]);
            j = j + 1;
        }
        assert(opcode.bytes@.take(nb as int) == opcode.bytes@);
        let ghost s1 = self@;
        assert(s0.table.opcodes.contains_key(toks) && s0.table.opcodes[toks] == opv);
        assert(s1 == with_writer(s0, write_all(s0.writer, opv.bytes)));
        assert(assemble(s0, iv) == place_operands(s1, iv, toks, opv, 0, 0));
        let mut k: usize = 0;
        let mut i: usize = 0;
        while i < n
            invariant
                i <= n == instruction.len(),
                k <= i,
                iv == strings_view(instruction@),
                toks.len() == n,
                tokens_view(analyzed@) == toks,
                opcode@ == opv,
                place_operands(s1, iv, toks, opv, 0, 0) == place_operands(self@, iv, toks, opv, i as nat, k as nat),
                assemble(s0, iv) == place_operands(s1, iv, toks, opv, 0, 0),
                s0 == old(self)@,
            decreases n - i,
        {
            assert(toks[i as int] == analyzed@[i as int]@);
            match analyzed[i] {
                Token::Value => {
                    if k >= opcode.operands.len() {
                        return None;
                    }
                    let operand = opcode.operands[k];
                    let pc = self.program.pc();
                    let len = #[verifier::truncate] (opcode.bytes.len() as u16);
                    if pc < len {
                        return None;
                    }
                    let base = pc - len;
                    if base as u32 + operand.position as u32 > 0xFFFF {
                        return None;
                    }
                    let ghost sa = self@;
                    self.program.push_pc();
                    self.program.seek(base + operand.position as u16);
                    assert(self@ =~= with_writer(sa, seek_to(push_pc_of(sa.writer), (base + operand.position) as u16)));
                    assert(iv[i as int] == instruction@[i as int]@);
                    proof {
                        lemma_parse_value_keeps_stack(self@, iv[i as int], operand.size);
                    }
                    match self.parse_value(&instruction[i], operand.size) {
                        None => {
                            return None;
                        },
                        Some(Err(e)) => {
                            return Some(Err(e));
                        },
                        Some(Ok(())) => {},
                    }
                    let ghost s2 = self@;
                    self.program.pop_pc();
                    assert(self@ =~= with_writer(s2, pop_pc_of(s2.writer)));
                    k = k + 1;
                },
                Token::Keyword(_) => {},
            }
            i = i + 1;
        }
        Some(Ok(()))
    }

    /// A `x:` line: a number moves the program counter, a name defines a
    /// tag; `None` on a fault.
    fn label(&mut self, word: &String) -> (r: Option<Result<(), String>>)
        requires
            word@.len() > 0,
        ensures
            ({
                let label = word@.drop_last();
                if number_panics(label) {
                    r is None
                } else {
                    r == Some(Ok::<(), String>(())) && final(self)@ == match number_value(label) {
                        Some(x) => with_writer(
                            old(self)@,
                            seek_to(pad_to_of(old(self)@.writer, x as u16), x as u16),
                        ),
                        None => define_tag(old(self)@, label, pc16(old(self)@.writer)),
                    }
                }
            }),
    {
        let chars = chars_of(word.as_str());
        let label = sub_chars(&chars, 0, chars.len() - 1);
        assert(label@ == word@.drop_last());
        match scan_number(&label) {
            None => None,
            Some(Some(x)) => {
                let ghost s0 = self@;
                self.program.pad_to(x as u16);
                self.program.seek(x as u16);
                assert(self@ =~= with_writer(s0, seek_to(pad_to_of(s0.writer, x as u16), x as u16)));
                Some(Ok(()))
            },
            Some(None) => {
                let name = string_of(&label);
                let pc = self.program.pc();
                let _ = self.add_tag(&name, pc);
                Some(Ok(()))
            },
        }
    }

    /// A `@string s` line: writes the UTF-8 bytes of `s`; `None` on a fault.
    fn write_string(&mut self, text: &String) -> (r: Option<Result<(), String>>)
        ensures
            ({
                let bytes = vstd::utf8::encode_utf8(text@);
                if write_faults(old(self)@.writer, bytes.len()) {
                    r is None
                } else {
                    r == Some(Ok::<(), String>(())) && final(self)@ == with_writer(
                        old(self)@,
                        write_all(old(self)@.writer, bytes),
                    )
                }
            }),
    {
        let b = text.as_str().as_bytes();
        let nb = b.len();
        if self.program.position() > usize::MAX - nb {
            return None;
        }
        let ghost s0 = self@;
        let mut j: usize = 0;
        assert(b@.take(0) =~= Seq::<u8>::empty());
        while j < nb
            invariant
                j <= nb == b@.len(),
                s0.writer.pc + nb <= usize::MAX,
                self.program@ == write_all(s0.writer, b@.take(j as int)),
                self@ == with_writer(s0, self.program@),
            decreases nb - j,
        {
            proof {
                crate::program::lemma_write_all_frame(s0.writer, b@.take(j as int));
            }
            assert(b@.take(j + 1).drop_last() == b@.take(j as int));
            self.program.write(b[j]);
            j = j + 1;
        }
        assert(b@.take(nb as int) == b@);
        Some(Ok(()))
    }

    /// Reads a number for a directive: `None` on a fault, `Some(None)` where
    /// the word is no number.
    fn directive_number(&self, word: &String) -> (r: Option<Option<i32>>)
        ensures
            r is None <==> number_panics(word@),
            r matches Some(x) ==> x == number_value(word@),
    {
        let chars = chars_of(word.as_str());
        scan_number(&chars)
    }

    /// Carries out a statement; `None` on a fault.
    fn parse_statement(&mut self, instruction: &Vec<String>) -> (r: Option<Result<(), String>>)
        ensures
            match parse_statement(old(self)@, strings_view(instruction@)) {
                AsmOutcome::Fault => r is None,
                AsmOutcome::Done(s, res) => r matches Some(x) && final(self)@ == s && result_view(x)
                    == res,
            },
    {
        let ghost iv = strings_view(instruction@);
        let n = instruction.len();
        if n == 0 {
            return Some(Ok(()));
        }
        assert(iv[0] == instruction@[0]@);
        if n >= 2 {
            assert(iv[1] == instruction@[1]@);
        }
        if n >= 3 {
            assert(iv[2] == instruction@[2]@);
        }
        if n == 1 {
            if is_word(&instruction[0], "@end") {
                let ghost s0 = self@;
                return match self.scopes.pop() {
                    None => Some(Err(String::from_str("@end called in global scope!"))),
                    Some(_) => {
                        assert(self@ =~= AsmView { scopes: s0.scopes.drop_last(), ..s0 });
                        Some(Ok(()))
                    },
                };
            }
            if is_word(&instruction[0], "@scope") {
                if self.anon_generator == i32::MAX {
                    return None;
                }
                let ghost s0 = self@;
                let mut name = String::from_str("_anon_");
                let d = decimal_string(self.anon_generator as i64);
                name.append(d.as_str());
                name.append("_");
                self.scopes.push(name);
                self.anon_generator = self.anon_generator + 1;
                assert(self@ =~= AsmView {
                    scopes: s0.scopes.push(anon_name(s0.anon)),
                    anon: s0.anon + 1,
                    ..s0
                });
                return Some(Ok(()));
            }
            let chars = chars_of(instruction[0].as_str());
            if chars.len() == 0 {
                return None;
            }
            if chars[chars.len() - 1] == ':' {
                return self.label(&instruction[0]);
            }
        } else if n == 2 {
            if is_word(&instruction[0], "@string") {
                return self.write_string(&instruction[1]);
            }
            if is_word(&instruction[0], "@mod") {
                let ghost s0 = self@;
                self.scopes.push(instruction[1].clone());
                assert(self@ =~= AsmView { scopes: s0.scopes.push(iv[1]), ..s0 });
                return Some(Ok(()));
            }
            if is_word(&instruction[0], "@function") {
                let pc = self.program.pc();
                let _ = self.add_tag(&instruction[1], pc);
                let ghost s1 = self@;
                self.scopes.push(instruction[1].clone());
                assert(self@ =~= AsmView { scopes: s1.scopes.push(iv[1]), ..s1 });
                return Some(Ok(()));
            }
            if is_word(&instruction[0], "@alloc_from") {
                return match self.directive_number(&instruction[1]) {
                    None => None,
                    Some(None) => Some(Err(String::from_str("cannot parse number"))),
                    Some(Some(x)) => {
                        let ghost s0 = self@;
                        self.allocator = x as u16;
                        assert(self@ =~= AsmView { allocator: x as u16, ..s0 });
                        Some(Ok(()))
                    },
                };
            }
        } else if n == 3 {
            if is_word(&instruction[0], "@define") {
                return match self.directive_number(&instruction[2]) {
                    None => None,
                    Some(None) => Some(Err(String::from_str("cannot parse number"))),
                    Some(Some(x)) => {
                        let _ = self.add_tag(&instruction[1], x as u16);
                        Some(Ok(()))
                    },
                };
            }
            if is_word(&instruction[0], "@alloc") {
                let a = self.allocator;
                let _ = self.add_tag(&instruction[1], a);
                return match self.directive_number(&instruction[2]) {
                    None => None,
                    Some(None) => Some(Err(String::from_str("cannot parse number"))),
                    Some(Some(x)) => {
                        let size = x as u16;
                        if a as u32 + size as u32 > 0xFFFF {
                            return None;
                        }
                        let ghost s1 = self@;
                        self.allocator = a + size;
                        assert(self@ =~= AsmView { allocator: (a + size) as u16, ..s1 });
                        Some(Ok(()))
                    },
                };
            }
        }
        self.assemble(instruction)
    }

    /// Parses a line without the check for faults; `None` on a fault.
    fn parse_line(&mut self, instruction: &Vec<String>) -> (r: Option<Result<(), String>>)
        ensures
            match parse_line(old(self)@, strings_view(instruction@)) {
                AsmOutcome::Fault => r is None,
                AsmOutcome::Done(s, res) => r matches Some(x) && final(self)@ == s && result_view(x)
                    == res,
            },
    {
        let ghost iv = strings_view(instruction@);
        let mut statement: Vec<String> = Vec::new();
        let mut i: usize = 0;
        assert(iv.take(0) =~= Seq::<Seq<char>>::empty());
        assert(strings_view(statement@) =~= iv.take(0));
        while i < instruction.len()
            invariant
                i <= instruction.len(),
                iv == strings_view(instruction@),
                comment_start(iv.take(i as int)) == i,
                strings_view(statement@) == iv.take(i as int),
                self@ == old(self)@,
            decreases instruction.len() - i,
        {
            assert(iv.take(i + 1).drop_last() == iv.take(i as int));
            assert(iv.take(i + 1).last() == instruction@[i as int]@);
            if is_word(&instruction[i], "@") && !(i == 1 && is_word(&instruction[0], "@string")) {
                assert(iv.take(i + 1)[0] == iv[0]);
                assert(comment_start(iv.take(i + 1)) == i);
                proof {
                    lemma_comment_start_stays(iv, i + 1);
                }
                assert(parse_line(old(self)@, iv) == parse_statement(old(self)@, iv.take(i as int)));
                return self.parse_statement(&statement);
            }
            let ghost before = strings_view(statement@);
            statement.push(instruction[i].clone());
            assert(strings_view(statement@) =~= before.push(instruction@[i as int]@));
            assert(iv.take(i + 1) =~= iv.take(i as int).push(iv[i as int]));
            assert(iv.take(i + 1)[0] == iv[0]);
            assert(comment_start(iv.take(i + 1)) == i + 1);
            i = i + 1;
        }
        assert(iv.take(instruction.len() as int) == iv);
        assert(parse_line(old(self)@, iv) == parse_statement(old(self)@, iv));
        self.parse_statement(&statement)
    }

    /// Parse an instruction and generate code, appending to the program: see
    /// `parse_line`.
    pub fn parse(&mut self, instruction: Vec<String>) -> (r: Result<(), String>)
        requires
            !(parse_line(old(self)@, strings_view(instruction@)) is Fault),
        ensures
            parse_line(old(self)@, strings_view(instruction@)) == AsmOutcome::Done(
                final(self)@,
                result_view(r),
            ),
    {
        match self.parse_line(&instruction) {
            Some(r) => r,
            None => Err(String::new()),
        }
    }

    /// Parses a line as `parse` does where it does not fault; `None` where it
    /// faults (an arithmetic overflow, a program counter past the largest
    /// `usize`, an empty token alone on the line, or a number token that
    /// reading would cut inside a character), with the assembler then left
    /// part-way through the line.
    pub fn try_parse(&mut self, instruction: Vec<String>) -> (r: Option<Result<(), String>>)
        ensures
            r is None <==> parse_line(old(self)@, strings_view(instruction@)) is Fault,
            r matches Some(res) ==> parse_line(old(self)@, strings_view(instruction@))
                == AsmOutcome::Done(final(self)@, result_view(res)),
    {
        self.parse_line(&instruction)
    }

    /// Creates a "token" out of a word
    fn analyze(&self, token: &String) -> (r: Token)
        ensures
            r@ == analyze(self@.table, token@),
    {
        if self.table.is_keyword(token) {
            Token::Keyword(token.clone())
        } else {
            Token::Value
        }
    }
}

/// A copy of an opcode.
fn copy_opcode(op: &crate::opcodes::Opcode) -> (r: crate::opcodes::Opcode)
    ensures
        r@ == op@,
{
    let mut bytes: Vec<u8> = Vec::new();
    let mut i: usize = 0;
    while i < op.bytes.len()
        invariant
            i <= op.bytes.len(),
            bytes@ == op.bytes@.take(i as int),
        decreases op.bytes.len() - i,
    {
        bytes.push(op.bytes[i]);
        i = i + 1;
        assert(bytes@ =~= op.bytes@.take(i as int));
    }
    let mut operands: Vec<crate::opcodes::Operand> = Vec::new();
    let mut j: usize = 0;
    while j < op.operands.len()
        invariant
            j <= op.operands.len(),
            operands@ == op.operands@.take(j as int),
        decreases op.operands.len() - j,
    {
        operands.push(op.operands[j]);
        j = j + 1;
        assert(operands@ =~= op.operands@.take(j as int));
    }
    assert(bytes@ =~= op.bytes@);
    assert(operands@ =~= op.operands@);
    crate::opcodes::Opcode { bytes, operands }
}

/// A number followed by a text.
fn number_message(x: i32, rest: &str) -> (r: String)
    ensures
        r@ == decimal(x as int) + rest@,
{
    let d = decimal_string(x as i64);
    d.concat(rest)
}

/// Writing an operand keeps the saved program counters.
proof fn lemma_parse_value_keeps_stack(s: AsmView, value: Seq<char>, size: u8)
    ensures
        parse_value(s, value, size) matches AsmOutcome::Done(s2, _) ==> s2.writer.pc_stack
            == s.writer.pc_stack && s2.scopes == s.scopes && s2.table == s.table,
{
    if !number_panics(value) && number_value(value) is None && (size == 1 || size == 2) {
        if let Some(n) = global_name(s.scopes, value) {
            let w1 = add_reference_of(s.writer, RefView { tag: n, location: pc16(s.writer), size });
            let zeros: nat = if size == 1 { 2 } else { 1 };
            crate::program::lemma_write_all_frame(w1, Seq::new(zeros, |i: int| 0u8));
        }
    }
}

/// Once a comment has started, it goes on to the end of the line.
proof fn lemma_comment_start_stays(instr: Seq<Seq<char>>, i: int)
    requires
        0 <= i <= instr.len(),
        comment_start(instr.take(i)) < i,
    ensures
        comment_start(instr) == comment_start(instr.take(i)),
        0 <= comment_start(instr) < i,
    decreases instr.len() - i,
{
    lemma_comment_start_bound(instr.take(i));
    if i < instr.len() {
        assert(instr.take(i + 1).drop_last() == instr.take(i));
        lemma_comment_start_stays(instr, i + 1);
    } else {
        assert(instr.take(i) == instr);
    }
}

proof fn lemma_comment_start_bound(instr: Seq<Seq<char>>)
    ensures
        0 <= comment_start(instr) <= instr.len(),
    decreases instr.len(),
{
    if instr.len() > 0 {
        lemma_comment_start_bound(instr.drop_last());
    }
}

/// Once a name has too many `@`, it stays so.
proof fn lemma_scan_too_many_stays(scopes: Seq<Seq<char>>, tag: Seq<char>, i: int)
    requires
        0 <= i <= tag.len(),
        scan_name(scopes, tag.take(i)) is TooMany,
    ensures
        scan_name(scopes, tag) is TooMany,
    decreases tag.len() - i,
{
    if i < tag.len() {
        assert(tag.take(i + 1).drop_last() == tag.take(i));
        lemma_scan_too_many_stays(scopes, tag, i + 1);
    } else {
        assert(tag.take(i) == tag);
    }
}

} // verus!
