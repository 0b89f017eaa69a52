//! The linker: fills every reference whose tag (or expression over tags)
//! has a value into the code, and keeps the others.
use vstd::prelude::*;
use crate::number::{number_panics, number_value, scan_number};
use crate::program::{
    high_byte, low_byte, lookup_tag, refs_view, tag_map, tag_value, Program, ProgramView, RefView, Tag, TagReference,
};
use vstd::string::StringExecFns;
use crate::text::{chars_of, decimal, decimal_string, is_alphanumeric, is_whitespace, spec_is_alphanumeric, spec_is_whitespace, string_of};

verus! {

/// The value of an expression over tags: a 16-bit value, no value (a name
/// that no tag has, or text that is no expression), or an arithmetic fault
/// (overflow or a division by zero), where the evaluation panics.
#[derive(PartialEq, Eq, Structural, Clone, Copy, Debug)]
pub enum Eval {
    Value(i16),
    Undefined,
    Fault,
}

/// A character that continues a name in an expression.
pub open spec fn name_char(c: char) -> bool {
    spec_is_alphanumeric(c) || c == '_' || c == '@'
}

/// The pieces of an expression after its first characters, the last piece
/// being the one still open (possibly empty): names and numbers run
/// together, every other character that is no whitespace stands alone, and
/// whitespace separates.
pub open spec fn split_pieces(s: Seq<char>) -> Seq<Seq<char>>
    decreases s.len(),
{
    if s.len() == 0 {
        seq![Seq::empty()]
    } else {
        let st = split_pieces(s.drop_last());
        let c = s.last();
        if name_char(c) {
            st.update(st.len() - 1, st.last().push(c))
        } else {
            let st2 = if st.last().len() != 0 {
                st.push(Seq::empty())
            } else {
                st
            };
            if !spec_is_whitespace(c) {
                st2.update(st2.len() - 1, st2.last().push(c)).push(Seq::empty())
            } else {
                st2
            }
        }
    }
}

/// The tokens of an expression.
pub open spec fn expression_tokens(s: Seq<char>) -> Seq<Seq<char>> {
    let st = split_pieces(s);
    if st.last().len() == 0 {
        st.drop_last()
    } else {
        st
    }
}

/// Division that rounds toward zero, as Rust's integer `/` does.
pub open spec fn trunc_div(x: int, y: int) -> int {
    let q = (if x < 0 { -x } else { x }) / (if y < 0 { -y } else { y });
    if (x < 0) != (y < 0) {
        -q
    } else {
        q
    }
}

/// A result as an `i16`, or a fault where it does not fit.
pub open spec fn fit_i16(v: int) -> Eval {
    if i16::MIN <= v <= i16::MAX {
        Eval::Value(v as i16)
    } else {
        Eval::Fault
    }
}

/// `left op right` in `i16`.
pub open spec fn apply_op(op: char, left: i16, right: i16) -> Eval {
    if op == '+' {
        fit_i16(left + right)
    } else if op == '-' {
        fit_i16(left - right)
    } else if op == '*' {
        fit_i16(left * right)
    } else if right == 0 {
        Eval::Fault
    } else {
        fit_i16(trunc_div(left as int, right as int))
    }
}

/// The value of a single token: a number, else a tag's value.
pub open spec fn atom_value(tags: Map<Seq<char>, u16>, t: Seq<char>) -> Eval {
    if number_panics(t) {
        Eval::Fault
    } else if number_value(t) is Some {
        Eval::Value(number_value(t).unwrap() as i16)
    } else if tags.contains_key(t) {
        Eval::Value(tags[t] as i16)
    } else {
        Eval::Undefined
    }
}

/// Whether a token is the one-character token `c`.
pub open spec fn is_token(t: Seq<char>, c: char) -> bool {
    t == seq![c]
}

/// The arithmetic operators.
pub open spec fn is_operator(t: Seq<char>) -> bool {
    is_token(t, '+') || is_token(t, '-') || is_token(t, '*') || is_token(t, '/')
}

/// Evaluates the expression in `toks[0..end]` from its end, as the linker
/// reads it: a value (a number, a tag, or a parenthesised expression read
/// back to its `(`), then, unless the tokens are used up, an operator and
/// the expression before it, or the `(` that closes the group. Operators
/// bind from the left with no precedence. Gives the value and where the
/// unread tokens end.
pub open spec fn eval_tokens(tags: Map<Seq<char>, u16>, toks: Seq<Seq<char>>, end: int) -> (Eval, int)
    decreases end,
{
    if end <= 0 || end > toks.len() {
        (Eval::Undefined, 0)
    } else {
        let t = toks[end - 1];
        let (a, e1) = if is_token(t, ')') {
            let r = eval_tokens(tags, toks, end - 1);
            (r.0, if 0 <= r.1 <= end - 1 { r.1 } else { end - 1 })
        } else {
            (atom_value(tags, t), end - 1)
        };
        match a {
            Eval::Value(x) => if e1 == 0 {
                (Eval::Value(x), e1)
            } else {
                let op = toks[e1 - 1];
                if is_operator(op) {
                    let r = eval_tokens(tags, toks, e1 - 1);
                    match r.0 {
                        Eval::Value(y) => (apply_op(op[0], y, x), r.1),
                        other => (other, r.1),
                    }
                } else if is_token(op, '(') {
                    (Eval::Value(x), e1 - 1)
                } else {
                    (Eval::Undefined, e1 - 1)
                }
            },
            other => (other, e1),
        }
    }
}

/// The value of an expression over tags.
pub open spec fn expression_value(tags: Map<Seq<char>, u16>, s: Seq<char>) -> Eval {
    let toks = expression_tokens(s);
    eval_tokens(tags, toks, toks.len() as int).0
}

/// The tokens as plain values.
pub open spec fn tokens_view(toks: Seq<Vec<char>>) -> Seq<Seq<char>> {
    toks.map_values(|t: Vec<char>| t@)
}

/// Where `eval_tokens` says the unread tokens end.
proof fn lemma_eval_end(tags: Map<Seq<char>, u16>, toks: Seq<Seq<char>>, end: int)
    requires
        0 <= end <= toks.len(),
    ensures
        0 <= eval_tokens(tags, toks, end).1 <= end,
        end > 0 ==> eval_tokens(tags, toks, end).1 < end,
    decreases end,
{
    if end > 0 {
        lemma_eval_end(tags, toks, end - 1);
        let t = toks[end - 1];
        let r = eval_tokens(tags, toks, end - 1);
        let e1 = if is_token(t, ')') { r.1 } else { end - 1 };
        if e1 > 0 {
            lemma_eval_end(tags, toks, e1 - 1);
        }
    }
}

/// Splits an expression into its tokens.
fn split_expression(s: &Vec<char>) -> (r: Vec<Vec<char>>)
    ensures
        tokens_view(r@) == expression_tokens(s@),
{
    let mut split: Vec<Vec<char>> = Vec::new();
    split.push(Vec::new());
    let mut i: usize = 0;
    assert(tokens_view(split@) =~= split_pieces(s@.take(0)));
    while i < s.len()
        invariant
            i <= s.len(),
            split.len() > 0,
            tokens_view(split@) == split_pieces(s@.take(i as int)),
        decreases s.len() - i,
    {
        let c = s[i];
        assert(s@.take(i + 1).drop_last() == s@.take(i as int));
        let ghost before = tokens_view(split@);
        let last = split.len() - 1;
        if is_alphanumeric(c) || c == '_' || c == '@' {
            let mut cur = split.pop().unwrap();
            cur.push(c);
            split.push(cur);
            assert(tokens_view(split@) =~= before.update(before.len() - 1, before.last().push(c)));
        } else {
            if split[last].len() != 0 {
                split.push(Vec::new());
            }
            let ghost mid = tokens_view(split@);
            assert(mid =~= (if before.last().len() != 0 { before.push(Seq::empty()) } else { before }));
            if !is_whitespace(c) {
                let mut cur = split.pop().unwrap();
                cur.push(c);
                split.push(cur);
                split.push(Vec::new());
                assert(tokens_view(split@) =~= mid.update(mid.len() - 1, mid.last().push(c)).push(Seq::empty()));
            }
        }
        i = i + 1;
    }
    assert(s@.take(s.len() as int) == s@);
    let last = split.len() - 1;
    if split[last].len() == 0 {
        let ghost before = tokens_view(split@);
        split.pop();
        assert(tokens_view(split@) =~= before.drop_last());
    }
    split
}

/// Whether a token is the single character `c`.
fn token_is(t: &Vec<char>, c: char) -> (r: bool)
    ensures
        r == is_token(t@, c),
{
    if t.len() == 1 && t[0] == c {
        assert(t@ =~= seq![c]);
        true
    } else {
        false
    }
}

/// `left op right` in `i16`, as `apply_op` gives it.
fn apply(op: char, left: i16, right: i16) -> (r: Eval)
    ensures
        r == apply_op(op, left, right),
{
    let l = left as i32;
    let rt = right as i32;
    let v: i32 = if op == '+' {
        l + rt
    } else if op == '-' {
        l - rt
    } else if op == '*' {
        assert(-0x8000 * 0x8000 <= l * rt <= 0x8000 * 0x8000) by (nonlinear_arith)
            requires
                -0x8000 <= l <= 0x7fff,
                -0x8000 <= rt <= 0x7fff,
        ;
        l * rt
    } else {
        if right == 0 {
            return Eval::Fault;
        }
        let al: i32 = if l < 0 { -l } else { l };
        let ar: i32 = if rt < 0 { -rt } else { rt };
        let q = al / ar;
        if (l < 0) != (rt < 0) {
            -q
        } else {
            q
        }
    };
    if -0x8000 <= v && v <= 0x7fff {
        Eval::Value(v as i16)
    } else {
        Eval::Fault
    }
}

/// The value of a single token.
fn atom(tags: &Vec<(String, Tag)>, t: &Vec<char>) -> (r: Eval)
    ensures
        r == atom_value(tag_map(tags@), t@),
{
    match scan_number(t) {
        None => Eval::Fault,
        Some(Some(x)) => Eval::Value(x as i16),
        Some(None) => {
            let name = string_of(t);
            match lookup_tag(tags, &name) {
                Some(v) => Eval::Value(v as i16),
                None => Eval::Undefined,
            }
        },
    }
}

/// Evaluates `toks[0..end]` from its end, as `eval_tokens` says.
fn parse_expression(tags: &Vec<(String, Tag)>, toks: &Vec<Vec<char>>, end: usize) -> (r: (Eval, usize))
    requires
        end <= toks.len(),
    ensures
        r.0 == eval_tokens(tag_map(tags@), tokens_view(toks@), end as int).0,
        r.1 as int == eval_tokens(tag_map(tags@), tokens_view(toks@), end as int).1,
    decreases end,
{
    let ghost tv = tokens_view(toks@);
    let ghost tm = tag_map(tags@);
    proof {
        lemma_eval_end(tm, tv, end as int);
    }
    if end == 0 {
        return (Eval::Undefined, 0);
    }
    assert(tv[end - 1] == toks@[end - 1]@);
    let (a, e1) = if token_is(&toks[end - 1], ')') {
        proof {
            lemma_eval_end(tm, tv, end - 1);
        }
        parse_expression(tags, toks, end - 1)
    } else {
        (atom(tags, &toks[end - 1]), end - 1)
    };
    match a {
        Eval::Value(x) => {
            if e1 == 0 {
                return (Eval::Value(x), e1);
            }
            let op = &toks[e1 - 1];
            assert(tv[e1 - 1] == op@);
            if token_is(op, '+') || token_is(op, '-') || token_is(op, '*') || token_is(op, '/') {
                let (b, e2) = parse_expression(tags, toks, e1 - 1);
                match b {
                    Eval::Value(y) => (apply(op[0], y, x), e2),
                    other => (other, e2),
                }
            } else if token_is(op, '(') {
                (Eval::Value(x), e1 - 1)
            } else {
                (Eval::Undefined, e1 - 1)
            }
        },
        other => (other, e1),
    }
}

/// The value of an expression over the tags.
fn calculate(tags: &Vec<(String, Tag)>, expression: &String) -> (r: Eval)
    ensures
        r == expression_value(tag_map(tags@), expression@),
{
    let chars = chars_of(expression.as_str());
    let toks = split_expression(&chars);
    let (v, _) = parse_expression(tags, &toks, toks.len());
    v
}

/// What a reference's tag stands for when the program is linked.
#[derive(PartialEq, Eq, Structural, Clone, Copy, Debug)]
pub enum Resolution {
    Value(u16),
    Unresolved,
    Fault,
}

/// A tag's value where there is a tag of that name, else the value of the
/// name read as an expression over the tags.
#[verifier::opaque]
pub open spec fn resolve(tags: Map<Seq<char>, u16>, name: Seq<char>) -> Resolution {
    match tag_value(tags, name) {
        Some(v) => Resolution::Value(v),
        None => match expression_value(tags, name) {
            Eval::Value(x) => Resolution::Value(x as u16),
            Eval::Undefined => Resolution::Unresolved,
            Eval::Fault => Resolution::Fault,
        },
    }
}

/// Where linking stands: the code so far and the references kept
/// unresolved; or stopped at a reference of a size other than 1 or 2, with
/// its message; or a fault (an arithmetic fault, or a location past the end of
/// the code), where linking panics.
pub enum LinkState {
    Linking { code: Seq<u8>, kept: Seq<RefView> },
    Failed(Seq<char>),
    Fault,
}

/// The message for a reference of an unsupported size.
pub open spec fn invalid_size_message(size: u8) -> Seq<char> {
    "invalid tag size of "@ + decimal(size as int)
}

/// Links one more reference.
#[verifier::opaque]
pub open spec fn link_step(tags: Map<Seq<char>, u16>, code: Seq<u8>, kept: Seq<RefView>, r: RefView) -> LinkState {
    match resolve(tags, r.tag) {
        Resolution::Unresolved => LinkState::Linking { code, kept: kept.push(r) },
        Resolution::Fault => LinkState::Fault,
        Resolution::Value(v) => if r.size == 1 {
            if (r.location as int) < code.len() {
                LinkState::Linking { code: code.update(r.location as int, v as u8), kept }
            } else {
                LinkState::Fault
            }
        } else if r.size == 2 {
            if r.location + 1 < code.len() {
                LinkState::Linking {
                    code: code.update(r.location as int, low_byte(v)).update(
                        r.location + 1,
                        high_byte(v),
                    ),
                    kept,
                }
            } else {
                LinkState::Fault
            }
        } else {
            LinkState::Failed(invalid_size_message(r.size))
        },
    }
}

/// Links the references in order, from the given code.
pub open spec fn link_refs(tags: Map<Seq<char>, u16>, code: Seq<u8>, refs: Seq<RefView>) -> LinkState
    decreases refs.len(),
{
    if refs.len() == 0 {
        LinkState::Linking { code, kept: Seq::empty() }
    } else {
        match link_refs(tags, code, refs.drop_last()) {
            LinkState::Linking { code: c, kept: k } => link_step(tags, c, k, refs.last()),
            other => other,
        }
    }
}

/// The tags of two lists one after the other: those of the second win.
pub proof fn lemma_tag_map_concat(a: Seq<(String, Tag)>, b: Seq<(String, Tag)>)
    ensures
        tag_map(a + b) == tag_map(a).union_prefer_right(tag_map(b)),
    decreases b.len(),
{
    if b.len() == 0 {
        assert(a + b == a);
        assert(tag_map(a).union_prefer_right(tag_map(b)) =~= tag_map(a));
    } else {
        assert((a + b).drop_last() == a + b.drop_last());
        lemma_tag_map_concat(a, b.drop_last());
        assert(tag_map(a + b) =~= tag_map(a).union_prefer_right(tag_map(b)));
    }
}

/// The linker resolves references
pub struct Linker {
    tags: Vec<(String, Tag)>,
    references: Vec<TagReference>,
    code: Vec<u8>,
}

impl View for Linker {
    type V = ProgramView;

    closed spec fn view(&self) -> ProgramView {
        ProgramView {
            tags: tag_map(self.tags@),
            references: refs_view(self.references@),
            code: self.code@,
        }
    }
}

impl Linker {
    /// A linker with no program yet.
    pub fn new() -> (l: Self)
        ensures
            l@.tags == Map::<Seq<char>, u16>::empty(),
            l@.references.len() == 0,
            l@.code.len() == 0,
    {
        Self { tags: Vec::new(), references: Vec::new(), code: Vec::new() }
    }

    /// Adds a program: its code follows the code so far, its references follow
    /// the references so far, and its tags replace any of the same name.
    pub fn set_program(&mut self, program: Program)
        ensures
            final(self)@.tags == old(self)@.tags.union_prefer_right(program@.tags),
            final(self)@.references == old(self)@.references + program@.references,
            final(self)@.code == old(self)@.code + program@.code,
    {
        let mut program = program;
        let ghost t0 = self.tags@;
        let ghost r0 = self.references@;
        let ghost pt = program.tags@;
        let ghost pr = program.references@;
        self.tags.append(&mut program.tags);
        self.references.append(&mut program.references);
        self.code.append(&mut program.code);
        proof {
            lemma_tag_map_concat(t0, pt);
            assert(refs_view(r0 + pr) =~= refs_view(r0) + refs_view(pr));
        }
    }

    /// Links the program: see `link_refs`. `None` where linking faults (an
    /// arithmetic fault in an expression, or a location past the end of the
    /// code), on which the work is left unfinished.
    pub fn try_run(self) -> (r: Option<Result<Program, String>>)
        ensures
            r is None <==> link_refs(self@.tags, self@.code, self@.references) is Fault,
            r matches Some(res) ==> match link_refs(self@.tags, self@.code, self@.references) {
                LinkState::Linking { code, kept } => res matches Ok(p) && p@ == (ProgramView {
                    tags: self@.tags,
                    references: kept,
                    code,
                }),
                LinkState::Failed(m) => res matches Err(e) && e@ == m,
                LinkState::Fault => false,
            },
    {
        let ghost tm = tag_map(self.tags@);
        let ghost refs = refs_view(self.references@);
        let mut code = self.code;
        let mut new_refs: Vec<TagReference> = Vec::new();
        let mut i: usize = 0;
        assert(refs.take(0) =~= Seq::<RefView>::empty());
        assert(refs_view(new_refs@) =~= Seq::<RefView>::empty());
        while i < self.references.len()
            invariant
                i <= self.references.len(),
                tm == tag_map(self.tags@),
                refs == refs_view(self.references@),
                link_refs(tm, self.code@, refs.take(i as int)) == (LinkState::Linking {
                    code: code@,
                    kept: refs_view(new_refs@),
                }),
            decreases self.references.len() - i,
        {
            assert(refs.take(i + 1).drop_last() == refs.take(i as int));
            assert(refs.take(i + 1).last() == self.references@[i as int]@);
            match link_one(&self.tags, &mut code, &mut new_refs, &self.references[i]) {
                None => {},
                Some(outcome) => {
                    assert(refs.take(self.references.len() as int) == refs);
                    proof {
                        lemma_link_failed_stays(tm, self.code@, refs, i + 1);
                    }
                    return match outcome {
                        Ok(()) => None,
                        Err(msg) => Some(Err(msg)),
                    };
                },
            }
            i = i + 1;
        }
        assert(refs.take(self.references.len() as int) == refs);
        Some(Ok(Program::from(code, self.tags, new_refs)))
    }

    /// Links the program: every reference whose tag, or whose expression
    /// over tags, has a value gets that value in the code (one byte, or two
    /// with the low byte first); the others are kept, in order; a reference
    /// of another size than 1 or 2 stops linking with an error.
    pub fn run(self) -> (r: Result<Program, String>)
        requires
            !(link_refs(self@.tags, self@.code, self@.references) is Fault),
        ensures
            match link_refs(self@.tags, self@.code, self@.references) {
                LinkState::Linking { code, kept } => r matches Ok(p) && p@ == (ProgramView {
                    tags: self@.tags,
                    references: kept,
                    code,
                }),
                LinkState::Failed(m) => r matches Err(e) && e@ == m,
                LinkState::Fault => false,
            },
    {
        match self.try_run() {
            Some(res) => res,
            None => Err(String::new()),
        }
    }
}

/// Links one reference: `None` where linking goes on, `Some(Ok(()))` on a
/// fault, `Some(Err(..))` where it stops with that message.
fn link_one(
    tags: &Vec<(String, Tag)>,
    code: &mut Vec<u8>,
    new_refs: &mut Vec<TagReference>,
    r: &TagReference,
) -> (res: Option<Result<(), String>>)
    ensures
        match link_step(tag_map(tags@), old(code)@, refs_view(old(new_refs)@), r@) {
            LinkState::Linking { code: c, kept } => res is None && final(code)@ == c && refs_view(
                final(new_refs)@,
            ) == kept,
            LinkState::Failed(m) => res matches Some(Err(e)) && e@ == m,
            LinkState::Fault => res matches Some(Ok(_)),
        },
{
    reveal(link_step);
    reveal(resolve);
    let value: u16 = match lookup_tag(tags, &r.tag) {
        Some(v) => v,
        None => match calculate(tags, &r.tag) {
            Eval::Value(x) => x as u16,
            Eval::Fault => {
                return Some(Ok(()));
            },
            Eval::Undefined => {
                let ghost before = refs_view(new_refs@);
                new_refs.push(TagReference { tag: r.tag.clone(), location: r.location, size: r.size });
                assert(refs_view(new_refs@) =~= before.push(r@));
                return None;
            },
        },
    };
    let loc = r.location as usize;
    if r.size == 1 {
        if loc >= code.len() {
            return Some(Ok(()));
        }
        code.set(loc, value as u8);
        None
    } else if r.size == 2 {
        if loc + 1 >= code.len() {
            return Some(Ok(()));
        }
        code.set(loc, (value & 0xFF) as u8);
        code.set(loc + 1, (value >> 8) as u8);
        None
    } else {
        let mut msg = String::from_str("invalid tag size of ");
        let d = decimal_string(r.size as i64);
        msg.append(d.as_str());
        Some(Err(msg))
    }
}

/// Once linking stops, it stays stopped.
proof fn lemma_link_failed_stays(tags: Map<Seq<char>, u16>, code: Seq<u8>, refs: Seq<RefView>, i: int)
    requires
        0 <= i <= refs.len(),
        !(link_refs(tags, code, refs.take(i)) is Linking),
    ensures
        link_refs(tags, code, refs) == link_refs(tags, code, refs.take(i)),
    decreases refs.len() - i,
{
    if i < refs.len() {
        assert(refs.take(i + 1).drop_last() == refs.take(i));
        lemma_link_failed_stays(tags, code, refs, i + 1);
    } else {
        assert(refs.take(i) == refs);
    }
}

} // verus!
