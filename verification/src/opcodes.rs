//! The instruction table: which token patterns are instructions, their
//! opcode bytes and where their operands go.
use vstd::prelude::*;
use crate::number::{char_width, radix_value};
use crate::parser::{char_lists_view, trim, trim_chars};
use crate::number::unsigned_below;
use crate::text::{chars_of, string_of, sub_chars};

verus! {

/// A token of an instruction pattern: a keyword, or a place for a value.
#[derive(Debug)]
pub enum Token {
    Keyword(String),
    Value,
}

/// A token as a plain value.
pub enum TokenView {
    Keyword(Seq<char>),
    Value,
}

impl View for Token {
    type V = TokenView;

    open spec fn view(&self) -> TokenView {
        match self {
            Token::Keyword(s) => TokenView::Keyword(s@),
            Token::Value => TokenView::Value,
        }
    }
}

/// An operand of an instruction.
#[derive(Clone, Copy, Debug)]
pub struct Operand {
    /// The size of the operand in bytes
    pub size: u8,
    /// The offset of the operand from the start of the instruction, in bytes
    pub position: u8,
}

/// The code of an instruction: its bytes, with zeros where its operands go.
#[derive(Debug)]
pub struct Opcode {
    pub bytes: Vec<u8>,
    /// Sizes of operands in bytes
    pub operands: Vec<Operand>,
}

/// An opcode as plain values.
pub struct OpcodeView {
    pub bytes: Seq<u8>,
    pub operands: Seq<Operand>,
}

impl View for Opcode {
    type V = OpcodeView;

    open spec fn view(&self) -> OpcodeView {
        OpcodeView { bytes: self.bytes@, operands: self.operands@ }
    }
}

/// Token lists as plain values.
pub open spec fn tokens_view(v: Seq<Token>) -> Seq<TokenView> {
    v.map_values(|t: Token| t@)
}

/// The instructions that a list of entries defines: a later entry of a
/// pattern replaces an earlier one.
pub open spec fn opcode_map(entries: Seq<(Vec<Token>, Opcode)>) -> Map<Seq<TokenView>, OpcodeView>
    decreases entries.len(),
{
    if entries.len() == 0 {
        Map::empty()
    } else {
        opcode_map(entries.drop_last()).insert(
            tokens_view(entries.last().0@),
            entries.last().1@,
        )
    }
}

/// The table as plain values.
pub struct TableView {
    pub keywords: Set<Seq<char>>,
    pub opcodes: Map<Seq<TokenView>, OpcodeView>,
}

/// The number of value places in a pattern.
pub open spec fn count_values(key: Seq<TokenView>) -> nat
    decreases key.len(),
{
    if key.len() == 0 {
        0
    } else {
        count_values(key.drop_last()) + if key.last() is Value {
            1nat
        } else {
            0nat
        }
    }
}

/// An instruction whose operands match its pattern's value places, each of
/// one or two bytes.
pub open spec fn valid_opcode(key: Seq<TokenView>, op: OpcodeView) -> bool {
    &&& count_values(key) == op.operands.len()
    &&& forall|i: int| 0 <= i < op.operands.len() ==> #[trigger] op.operands[i].size == 1
        || op.operands[i].size == 2
}

/// A table whose every instruction is valid.
pub open spec fn valid_table(t: TableView) -> bool {
    forall|k: Seq<TokenView>| #[trigger] t.opcodes.contains_key(k) ==> valid_opcode(k, t.opcodes[k])
}

/// The lines of a text (split at line feeds).
pub open spec fn text_lines(s: Seq<char>) -> Seq<Seq<char>>
    decreases s.len(),
{
    if s.len() == 0 {
        seq![Seq::empty()]
    } else {
        let st = text_lines(s.drop_last());
        if s.last() == '\n' {
            st.push(Seq::empty())
        } else {
            st.update(st.len() - 1, st.last().push(s.last()))
        }
    }
}

/// The words of a text separated by spaces, the last one still open.
pub open spec fn words_open(s: Seq<char>) -> Seq<Seq<char>>
    decreases s.len(),
{
    if s.len() == 0 {
        seq![Seq::empty()]
    } else {
        let st = words_open(s.drop_last());
        if s.last() == ' ' {
            if st.last().len() > 0 {
                st.push(Seq::empty())
            } else {
                st
            }
        } else {
            st.update(st.len() - 1, st.last().push(s.last()))
        }
    }
}

/// The non-empty pieces of a text split at spaces.
pub open spec fn words(s: Seq<char>) -> Seq<Seq<char>> {
    let w = words_open(s);
    if w.last().len() == 0 {
        w.drop_last()
    } else {
        w
    }
}

/// Where `->` first occurs at or after `i`.
pub open spec fn arrow_from(s: Seq<char>, i: int) -> Option<int>
    decreases s.len() - i,
{
    if i < 0 || i + 1 >= s.len() {
        None
    } else if s[i] == '-' && s[i + 1] == '>' {
        Some(i)
    } else {
        arrow_from(s, i + 1)
    }
}

/// The first two pieces of a line split at `->`, where it has one.
pub open spec fn arrow_parts(s: Seq<char>) -> Option<(Seq<char>, Seq<char>)> {
    match arrow_from(s, 0) {
        None => None,
        Some(p) => {
            let rest = s.skip(p + 2);
            Some(
                (
                    s.take(p),
                    match arrow_from(rest, 0) {
                        Some(q) => rest.take(q),
                        None => rest,
                    },
                ),
            )
        },
    }
}

/// The pattern word for a one-byte value.
pub open spec fn value8_word() -> Seq<char> {
    seq!['[', '8', ']']
}

/// The pattern word for a two-byte value.
pub open spec fn value16_word() -> Seq<char> {
    seq!['[', '1', '6', ']']
}

/// A pattern word as a token.
pub open spec fn syntax_token(w: Seq<char>) -> TokenView {
    if w == value8_word() || w == value16_word() {
        TokenView::Value
    } else {
        TokenView::Keyword(w)
    }
}

/// The pattern of a line's words.
pub open spec fn syntax_tokens(ws: Seq<Seq<char>>) -> Seq<TokenView> {
    ws.map_values(|w: Seq<char>| syntax_token(w))
}

/// The operands of a pattern, in order, before their positions are known.
pub open spec fn syntax_operands(ws: Seq<Seq<char>>) -> Seq<Operand>
    decreases ws.len(),
{
    if ws.len() == 0 {
        Seq::empty()
    } else {
        let w = ws.last();
        let o = syntax_operands(ws.drop_last());
        if w == value8_word() {
            o.push(Operand { size: 1, position: 0 })
        } else if w == value16_word() {
            o.push(Operand { size: 2, position: 0 })
        } else {
            o
        }
    }
}

/// The keywords of a pattern.
pub open spec fn syntax_keywords(ws: Seq<Seq<char>>) -> Set<Seq<char>> {
    Set::new(|w: Seq<char>| ws.contains(w) && w != value8_word() && w != value16_word())
}

/// A word with every `[` and `]` at either end removed.
pub open spec fn strip_brackets_start(w: Seq<char>) -> Seq<char>
    decreases w.len(),
{
    if w.len() > 0 && (w[0] == '[' || w[0] == ']') {
        strip_brackets_start(w.drop_first())
    } else {
        w
    }
}

/// A word with every `[` and `]` at its end removed.
pub open spec fn strip_brackets_end(w: Seq<char>) -> Seq<char>
    decreases w.len(),
{
    if w.len() > 0 && (w.last() == '[' || w.last() == ']') {
        strip_brackets_end(w.drop_last())
    } else {
        w
    }
}

/// A word with every `[` and `]` at either end removed.
pub open spec fn strip_brackets(w: Seq<char>) -> Seq<char> {
    strip_brackets_end(strip_brackets_start(w))
}

/// The code side of a line: each word is a hexadecimal byte, or `[k]` for
/// the place of operand `k`, which then lies at the byte offset where the
/// word stands (the number of bytes of the words before it, cut to 8 bits)
/// and takes as many zero bytes as its size. `None` where a word is
/// neither, or names no operand.
pub open spec fn build_opcode(ws: Seq<Seq<char>>, operands: Seq<Operand>) -> Option<(Seq<u8>, Seq<Operand>)>
    decreases ws.len(),
{
    if ws.len() == 0 {
        Some((Seq::empty(), operands))
    } else {
        match build_opcode(ws.drop_last(), operands) {
            None => None,
            Some((bytes, ops)) => {
                let w = ws.last();
                if w.len() == 0 {
                    None
                } else if w[0] == '[' {
                    match radix_value(strip_brackets(w), 10, false) {
                        Some(p) => if 0 <= p < ops.len() {
                            Some(
                                (
                                    bytes + Seq::new(ops[p].size as nat, |i: int| 0u8),
                                    ops.update(p, Operand { size: ops[p].size, position: bytes.len() as u8 }),
                                ),
                            )
                        } else {
                            None
                        },
                        None => None,
                    }
                } else if char_width(w[0]) > 1 {
                    None
                } else {
                    match radix_value(w, 16, false) {
                        Some(b) => if 0 <= b <= 255 {
                            Some((bytes.push(b as u8), ops))
                        } else {
                            None
                        },
                        None => None,
                    }
                }
            },
        }
    }
}

/// One line of the table: blank lines are skipped; otherwise the line is a
/// pattern, `->`, and its code. The pattern's keywords are added first, then
/// the instruction. `Err` (with the table as it then stands) where the line
/// has no `->` or its code side is malformed.
pub open spec fn load_line(t: TableView, line: Seq<char>) -> Result<TableView, TableView> {
    let l = trim(line);
    if l.len() == 0 {
        Ok(t)
    } else {
        match arrow_parts(l) {
            None => Err(t),
            Some((syn, code)) => {
                let sw = words(syn);
                let t2 = TableView { keywords: t.keywords + syntax_keywords(sw), opcodes: t.opcodes };
                match build_opcode(words(code), syntax_operands(sw)) {
                    None => Err(t2),
                    Some((bytes, ops)) => Ok(
                        TableView {
                            keywords: t2.keywords,
                            opcodes: t2.opcodes.insert(
                                syntax_tokens(sw),
                                OpcodeView { bytes, operands: ops },
                            ),
                        },
                    ),
                }
            },
        }
    }
}

/// A line of the table that can be read: blank, or a pattern, `->`, and a
/// code side whose words are hexadecimal bytes and places of operands that
/// the pattern has.
pub open spec fn line_well_formed(line: Seq<char>) -> bool {
    let l = trim(line);
    l.len() == 0 || match arrow_parts(l) {
        Some((syn, code)) => build_opcode(words(code), syntax_operands(words(syn))) is Some,
        None => false,
    }
}

/// A table text every line of which can be read.
pub open spec fn table_well_formed(text: Seq<char>) -> bool {
    forall|i: int| 0 <= i < text_lines(text).len() ==> line_well_formed(#[trigger] text_lines(text)[i])
}

/// Loading one line succeeds exactly where it can be read.
proof fn lemma_line_ok_iff_well_formed(t: TableView, line: Seq<char>)
    ensures
        load_line(t, line) is Ok <==> line_well_formed(line),
{
}

/// Loading succeeds exactly where every line can be read, whatever the
/// table held before.
pub proof fn lemma_load_ok_iff_well_formed(t: TableView, lines: Seq<Seq<char>>)
    ensures
        load_lines(t, lines) is Ok <==> forall|i: int| 0 <= i < lines.len() ==> line_well_formed(
            #[trigger] lines[i],
        ),
    decreases lines.len(),
{
    if lines.len() > 0 {
        let init = lines.drop_last();
        lemma_load_ok_iff_well_formed(t, init);
        assert forall|i: int| 0 <= i < init.len() implies #[trigger] init[i] == lines[i] by {}
        assert(lines.last() == lines[lines.len() - 1]);
        match load_lines(t, init) {
            Ok(t2) => {
                lemma_line_ok_iff_well_formed(t2, lines.last());
                if line_well_formed(lines.last()) {
                    assert forall|i: int| 0 <= i < lines.len() implies line_well_formed(#[trigger] lines[i]) by {
                        if i < init.len() {
                            assert(line_well_formed(init[i]));
                        }
                    }
                }
            },
            Err(_) => {
                let k = choose|i: int| 0 <= i < init.len() && !line_well_formed(#[trigger] init[i]);
                assert(!line_well_formed(lines[k]));
            },
        }
    }
}

/// The table after the given lines, stopping at the first malformed one.
pub open spec fn load_lines(t: TableView, lines: Seq<Seq<char>>) -> Result<TableView, TableView>
    decreases lines.len(),
{
    if lines.len() == 0 {
        Ok(t)
    } else {
        match load_lines(t, lines.drop_last()) {
            Ok(t2) => load_line(t2, lines.last()),
            Err(t2) => Err(t2),
        }
    }
}

/// Splits a text at line feeds.
fn split_lines(s: &Vec<char>) -> (r: Vec<Vec<char>>)
    ensures
        char_lists_view(r@) == text_lines(s@),
{
    let mut st: Vec<Vec<char>> = Vec::new();
    st.push(Vec::new());
    let mut i: usize = 0;
    assert(char_lists_view(st@) =~= text_lines(s@.take(0)));
    while i < s.len()
        invariant
            i <= s.len(),
            st.len() > 0,
            char_lists_view(st@) == text_lines(s@.take(i as int)),
        decreases s.len() - i,
    {
        let c = s[i];
        assert(s@.take(i + 1).drop_last() == s@.take(i as int));
        let ghost before = char_lists_view(st@);
        if c == '\n' {
            st.push(Vec::new());
            assert(char_lists_view(st@) =~= before.push(Seq::empty()));
        } else {
            let mut cur = st.pop().unwrap();
            cur.push(c);
            st.push(cur);
            assert(char_lists_view(st@) =~= before.update(before.len() - 1, before.last().push(c)));
        }
        i = i + 1;
    }
    assert(s@.take(s.len() as int) == s@);
    st
}

/// Splits a text at spaces, keeping the non-empty pieces.
fn split_words(s: &Vec<char>) -> (r: Vec<Vec<char>>)
    ensures
        char_lists_view(r@) == words(s@),
{
    let mut st: Vec<Vec<char>> = Vec::new();
    st.push(Vec::new());
    let mut i: usize = 0;
    assert(char_lists_view(st@) =~= words_open(s@.take(0)));
    while i < s.len()
        invariant
            i <= s.len(),
            st.len() > 0,
            char_lists_view(st@) == words_open(s@.take(i as int)),
        decreases s.len() - i,
    {
        let c = s[i];
        assert(s@.take(i + 1).drop_last() == s@.take(i as int));
        let ghost before = char_lists_view(st@);
        if c == ' ' {
            if st[st.len() - 1].len() > 0 {
                st.push(Vec::new());
                assert(char_lists_view(st@) =~= before.push(Seq::empty()));
            }
        } else {
            let mut cur = st.pop().unwrap();
            cur.push(c);
            st.push(cur);
            assert(char_lists_view(st@) =~= before.update(before.len() - 1, before.last().push(c)));
        }
        i = i + 1;
    }
    assert(s@.take(s.len() as int) == s@);
    if st[st.len() - 1].len() == 0 {
        let ghost before = char_lists_view(st@);
        st.pop();
        assert(char_lists_view(st@) =~= before.drop_last());
    }
    st
}

/// Where `->` first occurs at or after `i`.
fn find_arrow(s: &Vec<char>, i: usize) -> (r: Option<usize>)
    ensures
        match arrow_from(s@, i as int) {
            Some(p) => r == Some(p as usize),
            None => r is None,
        },
    decreases s.len() - i,
{
    if i >= s.len() || i + 1 >= s.len() {
        None
    } else if s[i] == '-' && s[i + 1] == '>' {
        Some(i)
    } else {
        find_arrow(s, i + 1)
    }
}

proof fn lemma_arrow_bound(s: Seq<char>, i: int)
    ensures
        arrow_from(s, i) matches Some(p) ==> i <= p && p + 1 < s.len(),
    decreases s.len() - i,
{
    if !(i < 0 || i + 1 >= s.len()) && !(s[i] == '-' && s[i + 1] == '>') {
        lemma_arrow_bound(s, i + 1);
    }
}

proof fn lemma_strip_start(w: Seq<char>, i: int)
    requires
        0 <= i <= w.len(),
        forall|k: int| 0 <= k < i ==> (#[trigger] w[k] == '[' || w[k] == ']'),
        i == w.len() || !(w[i] == '[' || w[i] == ']'),
    ensures
        strip_brackets_start(w) == w.skip(i),
    decreases i,
{
    if i > 0 {
        assert forall|k: int| 0 <= k < i - 1 implies (#[trigger] w.drop_first()[k] == '[' || w.drop_first()[k] == ']') by {
            assert(w.drop_first()[k] == w[k + 1]);
        }
        lemma_strip_start(w.drop_first(), i - 1);
        assert(w.drop_first().skip(i - 1) == w.skip(i));
    } else {
        assert(w.skip(0) == w);
    }
}

proof fn lemma_strip_end(w: Seq<char>, j: int)
    requires
        0 <= j <= w.len(),
        forall|k: int| j <= k < w.len() ==> (#[trigger] w[k] == '[' || w[k] == ']'),
        j == 0 || !(w[j - 1] == '[' || w[j - 1] == ']'),
    ensures
        strip_brackets_end(w) == w.take(j),
    decreases w.len() - j,
{
    if j < w.len() {
        lemma_strip_end(w.drop_last(), j);
        assert(w.drop_last().take(j) == w.take(j));
    } else {
        assert(w.take(j) == w);
    }
}

/// Where a word without the brackets at its ends starts and ends.
fn strip_bounds(w: &Vec<char>) -> (r: (usize, usize))
    ensures
        r.0 <= r.1 <= w.len(),
        w@.subrange(r.0 as int, r.1 as int) == strip_brackets(w@),
{
    let mut i: usize = 0;
    while i < w.len() && (w[i] == '[' || w[i] == ']')
        invariant
            i <= w.len(),
            forall|k: int| 0 <= k < i ==> (#[trigger] w@[k] == '[' || w@[k] == ']'),
        decreases w.len() - i,
    {
        i = i + 1;
    }
    proof {
        lemma_strip_start(w@, i as int);
    }
    let ghost t = w@.skip(i as int);
    let mut j: usize = w.len();
    while j > i && (w[j - 1] == '[' || w[j - 1] == ']')
        invariant
            i <= j <= w.len(),
            t == w@.skip(i as int),
            forall|k: int| j <= k < w.len() ==> (#[trigger] w@[k] == '[' || w@[k] == ']'),
        decreases j,
    {
        j = j - 1;
    }
    proof {
        assert forall|k: int| j - i <= k < t.len() implies (#[trigger] t[k] == '[' || t[k] == ']') by {
            assert(t[k] == w@[k + i]);
        }
        lemma_strip_end(t, j - i);
        assert(t.take(j - i) =~= w@.subrange(i as int, j as int));
    }
    (i, j)
}

/// Whether a word is `[8]`.
fn is_value8(w: &Vec<char>) -> (r: bool)
    ensures
        r == (w@ == value8_word()),
{
    if w.len() == 3 && w[0] == '[' && w[1] == '8' && w[2] == ']' {
        assert(w@ =~= value8_word());
        true
    } else {
        false
    }
}

/// Whether a word is `[16]`.
fn is_value16(w: &Vec<char>) -> (r: bool)
    ensures
        r == (w@ == value16_word()),
{
    if w.len() == 4 && w[0] == '[' && w[1] == '1' && w[2] == '6' && w[3] == ']' {
        assert(w@ =~= value16_word());
        true
    } else {
        false
    }
}

/// The code side of a line, as `build_opcode` gives it.
fn build_code(ws: &Vec<Vec<char>>, operands: Vec<Operand>) -> (r: Option<(Vec<u8>, Vec<Operand>)>)
    ensures
        match build_opcode(char_lists_view(ws@), operands@) {
            Some((bytes, ops)) => r matches Some((b, o)) && b@ == bytes && o@ == ops,
            None => r is None,
        },
{
    let ghost wv = char_lists_view(ws@);
    let mut bytes: Vec<u8> = Vec::new();
    let mut ops = operands;
    let mut i: usize = 0;
    assert(wv.take(0) =~= Seq::<Seq<char>>::empty());
    while i < ws.len()
        invariant
            i <= ws.len(),
            wv == char_lists_view(ws@),
            build_opcode(wv.take(i as int), operands@) == Some((bytes@, ops@)),
        decreases ws.len() - i,
    {
        let w = &ws[i];
        assert(wv.take(i + 1).drop_last() == wv.take(i as int));
        assert(wv.take(i + 1).last() == w@);
        if w.len() == 0 {
            proof { lemma_build_none_stays(wv, operands@, i + 1); }
            return None;
        }
        if w[0] == '[' {
            let (a, b) = strip_bounds(w);
            match unsigned_below(w, a, b, 10, ops.len() as u64) {
                None => {
                    proof { lemma_build_none_stays(wv, operands@, i + 1); }
                    return None;
                },
                Some(p) => {
                    let p = p as usize;
                    let o = ops[p];
                    let position = #[verifier::truncate] (bytes.len() as u8);
                    let mut k: u8 = 0;
                    let ghost b0 = bytes@;
                    while k < o.size
                        invariant
                            k <= o.size,
                            bytes@ == b0 + Seq::new(k as nat, |j: int| 0u8),
                        decreases o.size - k,
                    {
                        bytes.push(0x00);
                        k = k + 1;
                        assert(bytes@ =~= b0 + Seq::new(k as nat, |j: int| 0u8));
                    }
                    ops.set(p, Operand { size: o.size, position });
                },
            }
        } else {
            if crate::number::width_of(w[0]) > 1 {
                proof { lemma_build_none_stays(wv, operands@, i + 1); }
                return None;
            }
            match unsigned_below(w, 0, w.len(), 16, 256) {
                None => {
                    assert(w@.subrange(0, w.len() as int) == w@);
                    proof { lemma_build_none_stays(wv, operands@, i + 1); }
                    return None;
                },
                Some(b) => {
                    assert(w@.subrange(0, w.len() as int) == w@);
                    bytes.push(b as u8);
                },
            }
        }
        i = i + 1;
    }
    assert(wv.take(ws.len() as int) == wv);
    Some((bytes, ops))
}

/// Once the code side fails, it stays failed.
proof fn lemma_build_none_stays(ws: Seq<Seq<char>>, operands: Seq<Operand>, i: int)
    requires
        0 <= i <= ws.len(),
        build_opcode(ws.take(i), operands) is None,
    ensures
        build_opcode(ws, operands) is None,
    decreases ws.len() - i,
{
    if i < ws.len() {
        assert(ws.take(i + 1).drop_last() == ws.take(i));
        lemma_build_none_stays(ws, operands, i + 1);
    } else {
        assert(ws.take(i) == ws);
    }
}

/// The keywords that a list of strings holds.
pub open spec fn keyword_set(v: Seq<String>) -> Set<Seq<char>> {
    Set::new(|w: Seq<char>| exists|i: int| 0 <= i < v.len() && (#[trigger] v[i])@ == w)
}

/// The pattern of a line has as many value places as operands, each of one
/// or two bytes.
proof fn lemma_syntax_valid(ws: Seq<Seq<char>>)
    ensures
        count_values(syntax_tokens(ws)) == syntax_operands(ws).len(),
        forall|i: int| 0 <= i < syntax_operands(ws).len() ==> #[trigger] syntax_operands(ws)[i].size == 1
            || syntax_operands(ws)[i].size == 2,
    decreases ws.len(),
{
    if ws.len() > 0 {
        lemma_syntax_valid(ws.drop_last());
        assert(syntax_tokens(ws).drop_last() == syntax_tokens(ws.drop_last()));
    }
}

/// The code side keeps the operands' number and sizes.
proof fn lemma_build_keeps_sizes(ws: Seq<Seq<char>>, operands: Seq<Operand>)
    ensures
        build_opcode(ws, operands) matches Some((bytes, ops)) ==> ops.len() == operands.len() && forall|i: int|
            0 <= i < ops.len() ==> #[trigger] ops[i].size == operands[i].size,
    decreases ws.len(),
{
    if ws.len() > 0 {
        lemma_build_keeps_sizes(ws.drop_last(), operands);
    }
}

/// Where no entry after position `i` has the pattern `key`, the table of the
/// whole list agrees on `key` with that of its first `i` entries.
proof fn lemma_opcode_map_suffix(entries: Seq<(Vec<Token>, Opcode)>, key: Seq<TokenView>, i: int)
    requires
        0 <= i <= entries.len(),
        forall|j: int| i <= j < entries.len() ==> tokens_view((#[trigger] entries[j]).0@) != key,
    ensures
        opcode_map(entries).contains_key(key) == opcode_map(entries.take(i)).contains_key(key),
        opcode_map(entries).contains_key(key) ==> opcode_map(entries)[key] == opcode_map(
            entries.take(i),
        )[key],
    decreases entries.len() - i,
{
    if i < entries.len() {
        lemma_opcode_map_suffix(entries.drop_last(), key, i);
        assert(entries.drop_last().take(i) == entries.take(i));
    } else {
        assert(entries.take(i) == entries);
    }
}

/// Whether two patterns are the same.
fn same_pattern(a: &Vec<Token>, b: &Vec<Token>) -> (r: bool)
    ensures
        r == (tokens_view(a@) == tokens_view(b@)),
{
    if a.len() != b.len() {
        assert(tokens_view(a@).len() != tokens_view(b@).len());
        return false;
    }
    let mut i: usize = 0;
    while i < a.len()
        invariant
            i <= a.len() == b.len(),
            forall|k: int| 0 <= k < i ==> (#[trigger] a@[k])@ == b@[k]@,
        decreases a.len() - i,
    {
        let same = match (&a[i], &b[i]) {
            (Token::Keyword(x), Token::Keyword(y)) => *x == *y,
            (Token::Value, Token::Value) => true,
            _ => false,
        };
        if !same {
            assert(tokens_view(a@)[i as int] != tokens_view(b@)[i as int]);
            return false;
        }
        i = i + 1;
    }
    assert(tokens_view(a@) =~= tokens_view(b@));
    true
}

/// The instruction table: the keywords of all patterns, and the patterns
/// with their code.
pub struct OpcodeTable {
    keywords: Vec<String>,
    entries: Vec<(Vec<Token>, Opcode)>,
}

impl View for OpcodeTable {
    type V = TableView;

    closed spec fn view(&self) -> TableView {
        TableView { keywords: keyword_set(self.keywords@), opcodes: opcode_map(self.entries@) }
    }
}

impl OpcodeTable {
    /// An empty table.
    pub fn new() -> (t: Self)
        ensures
            t@.keywords == Set::<Seq<char>>::empty(),
            t@.opcodes == Map::<Seq<TokenView>, OpcodeView>::empty(),
    {
        let t = Self { keywords: Vec::new(), entries: Vec::new() };
        assert(t@.keywords =~= Set::<Seq<char>>::empty());
        t
    }

    /// Adds a keyword.
    pub fn add_keyword(&mut self, word: String)
        ensures
            final(self)@.keywords == old(self)@.keywords.insert(word@),
            final(self)@.opcodes == old(self)@.opcodes,
    {
        let ghost w = word@;
        self.keywords.push(word);
        assert(self@.keywords =~= old(self)@.keywords.insert(w)) by {
            assert(self.keywords@[self.keywords@.len() - 1]@ == w);
            assert forall|x: Seq<char>| old(self)@.keywords.contains(x) implies self@.keywords.contains(x) by {
                let i = choose|i: int| 0 <= i < old(self).keywords@.len() && (#[trigger] old(self).keywords@[i])@ == x;
                assert(self.keywords@[i] == old(self).keywords@[i]);
            }
            assert forall|x: Seq<char>| self@.keywords.contains(x) implies old(self)@.keywords.insert(w).contains(x) by {
                let i = choose|i: int| 0 <= i < self.keywords@.len() && (#[trigger] self.keywords@[i])@ == x;
                if i < old(self).keywords@.len() {
                    assert(self.keywords@[i] == old(self).keywords@[i]);
                }
            }
        }
    }

    /// Adds an instruction; it replaces any of the same pattern.
    pub fn add_opcode(&mut self, condition: Vec<Token>, bytes: Vec<u8>, operands: Vec<Operand>)
        ensures
            final(self)@.keywords == old(self)@.keywords,
            final(self)@.opcodes == old(self)@.opcodes.insert(
                tokens_view(condition@),
                OpcodeView { bytes: bytes@, operands: operands@ },
            ),
    {
        self.entries.push((condition, Opcode { bytes, operands }));
        assert(self.entries@.drop_last() == old(self).entries@);
    }

    /// Whether a word is a keyword of some pattern.
    pub fn is_keyword(&self, word: &String) -> (r: bool)
        ensures
            r == self@.keywords.contains(word@),
    {
        let mut i: usize = 0;
        while i < self.keywords.len()
            invariant
                i <= self.keywords.len(),
                forall|k: int| 0 <= k < i ==> (#[trigger] self.keywords@[k])@ != word@,
            decreases self.keywords.len() - i,
        {
            if self.keywords[i] == *word {
                return true;
            }
            i = i + 1;
        }
        false
    }

    /// The instruction of a pattern, if there is one.
    pub fn lookup(&self, key: &Vec<Token>) -> (r: Option<&Opcode>)
        ensures
            self@.opcodes.contains_key(tokens_view(key@)) ==> (r matches Some(op) && op@
                == self@.opcodes[tokens_view(key@)]),
            !self@.opcodes.contains_key(tokens_view(key@)) ==> r is None,
    {
        let ghost kv = tokens_view(key@);
        let mut i = self.entries.len();
        while i > 0
            invariant
                i <= self.entries.len(),
                kv == tokens_view(key@),
                forall|j: int| i <= j < self.entries.len() ==> tokens_view((#[trigger] self.entries@[j]).0@) != kv,
            decreases i,
        {
            if same_pattern(&self.entries[i - 1].0, key) {
                proof {
                    lemma_opcode_map_suffix(self.entries@, kv, i as int);
                    assert(self.entries@.take(i as int).drop_last() == self.entries@.take(i - 1));
                }
                return Some(&self.entries[i - 1].1);
            }
            i = i - 1;
        }
        proof {
            lemma_opcode_map_suffix(self.entries@, kv, 0);
        }
        None
    }

    /// Reads one line of the table: see `load_line`.
    fn load_line(&mut self, line: &Vec<char>) -> (r: bool)
        ensures
            match load_line(old(self)@, line@) {
                Ok(t) => r && final(self)@ == t,
                Err(t) => !r && final(self)@ == t,
            },
    {
        let l = trim_chars(line);
        if l.len() == 0 {
            return true;
        }
        let p = match find_arrow(&l, 0) {
            None => {
                return false;
            },
            Some(p) => p,
        };
        proof {
            lemma_arrow_bound(l@, 0);
        }
        let syn = sub_chars(&l, 0, p);
        let rest = sub_chars(&l, p + 2, l.len());
        assert(rest@ == l@.skip(p + 2));
        let code = match find_arrow(&rest, 0) {
            Some(q) => {
                proof {
                    lemma_arrow_bound(rest@, 0);
                }
                sub_chars(&rest, 0, q)
            },
            None => rest,
        };
        let sw = split_words(&syn);
        let ghost swv = char_lists_view(sw@);
        let ghost k0 = self@.keywords;
        let mut syntax: Vec<Token> = Vec::new();
        let mut operands: Vec<Operand> = Vec::new();
        let mut i: usize = 0;
        assert(swv.take(0) =~= Seq::<Seq<char>>::empty());
        assert(syntax_keywords(swv.take(0)) =~= Set::<Seq<char>>::empty());
        assert(k0 + Set::<Seq<char>>::empty() =~= k0);
        assert(tokens_view(syntax@) =~= syntax_tokens(swv.take(0)));
        while i < sw.len()
            invariant
                i <= sw.len(),
                swv == char_lists_view(sw@),
                tokens_view(syntax@) == syntax_tokens(swv.take(i as int)),
                operands@ == syntax_operands(swv.take(i as int)),
                self@.keywords == k0 + syntax_keywords(swv.take(i as int)),
                self@.opcodes == old(self)@.opcodes,
            decreases sw.len() - i,
        {
            let w = &sw[i];
            let ghost prev = swv.take(i as int);
            assert(swv.take(i + 1).drop_last() == prev);
            assert(swv.take(i + 1).last() == w@);
            assert(swv.take(i + 1) == prev.push(w@));
            let ghost tv0 = tokens_view(syntax@);
            if is_value8(w) {
                syntax.push(Token::Value);
                operands.push(Operand { size: 1, position: 0 });
                assert(syntax_keywords(swv.take(i + 1)) =~= syntax_keywords(prev));
            } else if is_value16(w) {
                syntax.push(Token::Value);
                operands.push(Operand { size: 2, position: 0 });
                assert(syntax_keywords(swv.take(i + 1)) =~= syntax_keywords(prev));
            } else {
                let word = string_of(w);
                self.add_keyword(word);
                syntax.push(Token::Keyword(string_of(w)));
                assert(syntax_keywords(swv.take(i + 1)) =~= syntax_keywords(prev).insert(w@));
                assert(k0 + syntax_keywords(swv.take(i + 1)) =~= (k0 + syntax_keywords(prev)).insert(w@));
            }
            assert(tokens_view(syntax@) =~= tv0.push(syntax_token(w@)));
            assert(syntax_tokens(swv.take(i + 1)) =~= syntax_tokens(prev).push(syntax_token(w@)));
            i = i + 1;
        }
        assert(swv.take(sw.len() as int) == swv);
        let cw = split_words(&code);
        match build_code(&cw, operands) {
            None => false,
            Some((bytes, ops)) => {
                self.add_opcode(syntax, bytes, ops);
                true
            },
        }
    }

    /// Reads the instruction table from its text: see `load_lines`. `false`
    /// where a line is malformed; the lines before it stay loaded.
    pub fn load(&mut self, text: &str) -> (r: bool)
        ensures
            match load_lines(old(self)@, text_lines(text@)) {
                Ok(t) => r && final(self)@ == t,
                Err(t) => !r && final(self)@ == t,
            },
    {
        let chars = chars_of(text);
        let lines = split_lines(&chars);
        let ghost lv = char_lists_view(lines@);
        let mut i: usize = 0;
        assert(lv.take(0) =~= Seq::<Seq<char>>::empty());
        while i < lines.len()
            invariant
                i <= lines.len(),
                lv == char_lists_view(lines@),
                lv == text_lines(text@),
                load_lines(old(self)@, lv.take(i as int)) == Ok::<TableView, TableView>(self@),
            decreases lines.len() - i,
        {
            assert(lv.take(i + 1).drop_last() == lv.take(i as int));
            assert(lv.take(i + 1).last() == lines@[i as int]@);
            if !self.load_line(&lines[i]) {
                proof {
                    lemma_load_err_stays(old(self)@, lv, i + 1);
                }
                return false;
            }
            i = i + 1;
        }
        assert(lv.take(lines.len() as int) == lv);
        true
    }
}

/// One line keeps the table valid.
proof fn lemma_load_line_valid(t: TableView, line: Seq<char>)
    requires
        valid_table(t),
    ensures
        match load_line(t, line) {
            Ok(t2) => valid_table(t2),
            Err(t2) => valid_table(t2),
        },
{
    let l = trim(line);
    if l.len() > 0 {
        if let Some((syn, code)) = arrow_parts(l) {
            let sw = words(syn);
            lemma_syntax_valid(sw);
            lemma_build_keeps_sizes(words(code), syntax_operands(sw));
        }
    }
}

/// Every instruction in a table loaded from text has as many operands as
/// value places in its pattern, each of one or two bytes: loading keeps a
/// table so, whether it succeeds or stops at a malformed line.
pub proof fn lemma_load_keeps_valid(t: TableView, lines: Seq<Seq<char>>)
    requires
        valid_table(t),
    ensures
        match load_lines(t, lines) {
            Ok(t2) => valid_table(t2),
            Err(t2) => valid_table(t2),
        },
    decreases lines.len(),
{
    if lines.len() > 0 {
        lemma_load_keeps_valid(t, lines.drop_last());
        if let Ok(t2) = load_lines(t, lines.drop_last()) {
            lemma_load_line_valid(t2, lines.last());
        }
    }
}

/// Once loading stops, it stays stopped.
proof fn lemma_load_err_stays(t: TableView, lines: Seq<Seq<char>>, i: int)
    requires
        0 <= i <= lines.len(),
        load_lines(t, lines.take(i)) is Err,
    ensures
        load_lines(t, lines) == load_lines(t, lines.take(i)),
    decreases lines.len() - i,
{
    if i < lines.len() {
        assert(lines.take(i + 1).drop_last() == lines.take(i));
        lemma_load_err_stays(t, lines, i + 1);
    } else {
        assert(lines.take(i) == lines);
    }
}

} // verus!
