//! Properties of the assembler, the writer and the linker that hold across
//! calls.
use vstd::prelude::*;
use crate::assembler::{
    comment_start, global_name, parse_line, parse_statement, qualify, scan_name, scope_prefix, AsmOutcome, AsmView, NameScan,
    define_tag, with_writer,
};
use crate::number::{number_panics, number_value};
use crate::parser::{lex, lex_step, tokenize, trim, trim_end, trim_start, LexState};
use crate::text::spec_is_whitespace;
use crate::linker::{atom_value, eval_tokens, is_operator, is_token, link_refs, link_step, resolve, Eval, LinkState};
use crate::program::{high_byte, low_byte, ProgramView, RefView};
use crate::program::{code_after_write, pad_to_of, pc16, pop_pc_of, push_pc_of, seek_to, WriterView};

verus! {

/// Restoring the program counter right after saving it gives back the
/// writer as it was.
pub proof fn law_pop_undoes_push(w: WriterView)
    ensures
        pop_pc_of(push_pc_of(w)) == w,
{
    assert(pop_pc_of(push_pc_of(w)) =~= w);
}

/// After a seek the writer reports the position sought.
pub proof fn law_seek_then_pc(w: WriterView, position: u16)
    ensures
        pc16(seek_to(w, position)) == position,
{
}

/// Writing a byte puts it at the program counter, keeps every other byte of
/// the code, and fills any gap between the old end and the program counter
/// with zeros.
pub proof fn law_write_places_byte(code: Seq<u8>, pc: nat, byte: u8)
    ensures
        ({
            let c = code_after_write(code, pc, byte);
            &&& c.len() == if pc < code.len() { code.len() } else { pc + 1 }
            &&& c[pc as int] == byte
            &&& forall|i: int| 0 <= i < c.len() && i != pc ==> #[trigger] c[i] == if i < code.len() {
                code[i]
            } else {
                0u8
            }
        }),
{
}

/// Reading characters without `@` after a state with no pending `@` just
/// appends them.
proof fn lemma_scan_plain(scopes: Seq<Seq<char>>, pre: Seq<char>, t: Seq<char>, name: Seq<char>)
    requires
        scan_name(scopes, pre) == (NameScan::Scanning { name, ats: 0 }),
        !t.contains('@'),
    ensures
        scan_name(scopes, pre + t) == (NameScan::Scanning { name: name + t, ats: 0 }),
    decreases t.len(),
{
    if t.len() == 0 {
        assert(pre + t == pre);
        assert(name + t == name);
    } else {
        assert(!t.drop_last().contains('@')) by {
            if t.drop_last().contains('@') {
                let k = choose|k: int| 0 <= k < t.drop_last().len() && t.drop_last()[k] == '@';
                assert(t[k] == '@');
            }
        }
        lemma_scan_plain(scopes, pre, t.drop_last(), name);
        assert((pre + t).drop_last() == pre + t.drop_last());
        assert((pre + t).last() == t.last());
        assert(t.last() != '@') by {
            assert(t[t.len() - 1] == t.last());
        }
        assert((name + t.drop_last()).push(t.last()) == name + t);
    }
}

/// A reference without `@` names a global tag as it is written (like
/// `scope__tag`).
pub proof fn law_global_reference(scopes: Seq<Seq<char>>, name: Seq<char>)
    requires
        !name.contains('@'),
    ensures
        global_name(scopes, name) == Some(name),
{
    assert(scan_name(scopes, Seq::empty()) == (NameScan::Scanning { name: Seq::empty(), ats: 0 }));
    lemma_scan_plain(scopes, Seq::empty(), name, Seq::empty());
    assert(Seq::<char>::empty() + name == name);
}

/// `@` followed by a name refers to the name in the current namespace: the
/// very tag that `name:` (or `@define name ..`) defines there.
pub proof fn law_local_reference(s: AsmView, name: Seq<char>, value: u16)
    requires
        name.len() > 0,
        !name.contains('@'),
    ensures
        global_name(s.scopes, seq!['@'] + name) == Some(qualify(s.scopes) + name),
        define_tag(s, name, value).writer.program.tags.contains_key(qualify(s.scopes) + name),
        define_tag(s, name, value).writer.program.tags[qualify(s.scopes) + name] == value,
{
    let scopes = s.scopes;
    let t = seq!['@'] + name;
    let first = seq!['@', name[0]];
    assert(first.drop_last() =~= seq!['@']);
    assert(seq!['@'].drop_last() =~= Seq::<char>::empty());
    assert(scan_name(scopes, Seq::<char>::empty()) == (NameScan::Scanning { name: Seq::empty(), ats: 0 }));
    assert(seq!['@'].last() == '@');
    assert(scan_name(scopes, seq!['@']) == (NameScan::Scanning { name: Seq::empty(), ats: 1 }));
    assert(scopes.take(scopes.len() - 0) == scopes);
    assert(scope_prefix(scopes, 0) == Some(qualify(scopes)));
    assert(Seq::<char>::empty() + qualify(scopes) + seq![name[0]] =~= qualify(scopes) + seq![name[0]]);
    assert(scan_name(scopes, first) == (NameScan::Scanning {
        name: qualify(scopes) + seq![name[0]],
        ats: 0,
    }));
    let rest = name.drop_first();
    assert(!rest.contains('@')) by {
        if rest.contains('@') {
            let k = choose|k: int| 0 <= k < rest.len() && rest[k] == '@';
            assert(name[k + 1] == '@');
        }
    }
    lemma_scan_plain(scopes, first, rest, qualify(scopes) + seq![name[0]]);
    assert(first + rest =~= t);
    assert(qualify(scopes) + seq![name[0]] + rest =~= qualify(scopes) + name);
}

/// `@@` followed by a name refers to the name in the namespace around the
/// current one.
pub proof fn law_parent_reference(scopes: Seq<Seq<char>>, name: Seq<char>)
    requires
        scopes.len() > 0,
        name.len() > 0,
        !name.contains('@'),
    ensures
        global_name(scopes, seq!['@', '@'] + name) == Some(qualify(scopes.drop_last()) + name),
{
    let t = seq!['@', '@'] + name;
    let first = seq!['@', '@', name[0]];
    assert(first.drop_last() =~= seq!['@', '@']);
    assert(seq!['@', '@'].drop_last() =~= seq!['@']);
    assert(seq!['@'].drop_last() =~= Seq::<char>::empty());
    assert(scan_name(scopes, Seq::<char>::empty()) == (NameScan::Scanning { name: Seq::empty(), ats: 0 }));
    assert(seq!['@'].last() == '@');
    assert(seq!['@', '@'].last() == '@');
    assert(scan_name(scopes, seq!['@']) == (NameScan::Scanning { name: Seq::empty(), ats: 1 }));
    assert(scan_name(scopes, seq!['@', '@']) == (NameScan::Scanning { name: Seq::empty(), ats: 2 }));
    assert(scopes.take(scopes.len() - 1) == scopes.drop_last());
    assert(scope_prefix(scopes, 1) == Some(qualify(scopes.drop_last())));
    assert(Seq::<char>::empty() + qualify(scopes.drop_last()) + seq![name[0]] =~= qualify(
        scopes.drop_last(),
    ) + seq![name[0]]);
    let rest = name.drop_first();
    assert(!rest.contains('@')) by {
        if rest.contains('@') {
            let k = choose|k: int| 0 <= k < rest.len() && rest[k] == '@';
            assert(name[k + 1] == '@');
        }
    }
    lemma_scan_plain(scopes, first, rest, qualify(scopes.drop_last()) + seq![name[0]]);
    assert(first + rest =~= t);
    assert(qualify(scopes.drop_last()) + seq![name[0]] + rest =~= qualify(scopes.drop_last()) + name);
}

/// The directive words are all different.
proof fn lemma_directives_differ()
    ensures
        "@end"@ != "@scope"@,
        "@string"@ != "@mod"@,
        "@mod"@ != "@function"@,
        "@string"@ != "@function"@,
        "@define"@ != "@alloc"@,
        "@end"@.len() == 4,
        "@scope"@.len() == 6,
        "@string"@.len() == 7,
        "@mod"@.len() == 4,
        "@function"@.len() == 9,
        "@alloc_from"@.len() == 11,
        "@define"@.len() == 7,
        "@alloc"@.len() == 6,
        "@"@.len() == 1,
{
    reveal_strlit("@end");
    reveal_strlit("@scope");
    reveal_strlit("@string");
    reveal_strlit("@mod");
    reveal_strlit("@function");
    reveal_strlit("@alloc_from");
    reveal_strlit("@define");
    reveal_strlit("@alloc");
    reveal_strlit("@");
    assert("@end"@.len() != "@scope"@.len());
    assert("@string"@.len() != "@mod"@.len());
    assert("@define"@.len() != "@alloc"@.len());
    assert("@string"@.len() != "@function"@.len());
    assert("@mod"@.len() != "@function"@.len());
}

/// A line without the token `@` is all statement.
proof fn lemma_no_comment(instr: Seq<Seq<char>>)
    requires
        forall|i: int| 0 <= i < instr.len() ==> #[trigger] instr[i] != "@"@,
    ensures
        comment_start(instr) == instr.len(),
        instr.take(comment_start(instr)) == instr,
    decreases instr.len(),
{
    if instr.len() > 0 {
        assert forall|i: int| 0 <= i < instr.drop_last().len() implies #[trigger] instr.drop_last()[i] != "@"@ by {
            assert(instr.drop_last()[i] == instr[i]);
        }
        lemma_no_comment(instr.drop_last());
        assert(instr.last() == instr[instr.len() - 1]);
    }
    assert(instr.take(instr.len() as int) == instr);
}

/// A line that starts with the token `@` is all comment.
proof fn lemma_comment_first(instr: Seq<Seq<char>>)
    requires
        instr.len() > 0,
        instr[0] == "@"@,
    ensures
        comment_start(instr) == 0,
    decreases instr.len(),
{
    if instr.len() > 1 {
        assert(instr.drop_last()[0] == instr[0]);
        lemma_comment_first(instr.drop_last());
        assert(comment_start(instr.drop_last()) < instr.len() - 1);
    } else {
        assert(instr.drop_last().len() == 0);
        assert(comment_start(instr.drop_last()) == 0);
        assert(instr.last() == instr[0]);
        assert(instr.last() == "@"@);
    }
}

/// `@` is no number.
proof fn lemma_at_is_no_number()
    ensures
        number_value("@"@) is None,
{
    reveal_strlit("@");
    let a = "@"@;
    assert(a =~= seq!['@']);
    assert(a.drop_last() =~= Seq::<char>::empty());
    assert(crate::number::digits_value(a, 10) is None);
    assert(crate::number::byte_len(a.drop_last()) == 0);
    assert(crate::number::byte_len(a) == 1);
}

/// `@end` closes the namespace that `@mod` opened: the two lines together
/// leave the assembler as it was.
pub proof fn law_end_closes_mod(s: AsmView, name: Seq<char>)
    requires
        name != "@"@,
    ensures
        parse_line(s, seq!["@mod"@, name]) matches AsmOutcome::Done(s1, r1) && r1 is Ok
            && parse_line(s1, seq!["@end"@]) == AsmOutcome::Done(s, Ok(())),
{
    lemma_directives_differ();
    lemma_no_comment(seq!["@mod"@, name]);
    lemma_no_comment(seq!["@end"@]);
    let s1 = AsmView { scopes: s.scopes.push(name), ..s };
    assert(parse_line(s, seq!["@mod"@, name]) == AsmOutcome::Done(s1, Ok(())));
    assert(s1.scopes.drop_last() == s.scopes);
    assert(AsmView { scopes: s1.scopes.drop_last(), ..s1 } =~= s);
}

/// `@end` closes the namespace that `@function` opened: the two lines
/// together only define the function's tag, at the program counter.
pub proof fn law_end_closes_function(s: AsmView, name: Seq<char>)
    requires
        name != "@"@,
    ensures
        parse_line(s, seq!["@function"@, name]) matches AsmOutcome::Done(s1, r1) && r1 is Ok
            && parse_line(s1, seq!["@end"@]) == AsmOutcome::Done(
            define_tag(s, name, pc16(s.writer)),
            Ok(()),
        ),
{
    lemma_directives_differ();
    lemma_no_comment(seq!["@function"@, name]);
    lemma_no_comment(seq!["@end"@]);
    let s0 = define_tag(s, name, pc16(s.writer));
    let s1 = AsmView { scopes: s0.scopes.push(name), ..s0 };
    assert(parse_line(s, seq!["@function"@, name]) == AsmOutcome::Done(s1, Ok(())));
    assert(s1.scopes.drop_last() == s0.scopes);
    assert(AsmView { scopes: s1.scopes.drop_last(), ..s1 } =~= s0);
}

/// `@end` closes the namespace that `@scope` opened: the two lines together
/// only count one more anonymous namespace.
pub proof fn law_end_closes_scope(s: AsmView)
    requires
        s.anon < i32::MAX,
    ensures
        parse_line(s, seq!["@scope"@]) matches AsmOutcome::Done(s1, r1) && r1 is Ok
            && parse_line(s1, seq!["@end"@]) == AsmOutcome::Done(AsmView { anon: s.anon + 1, ..s }, Ok(())),
{
    lemma_directives_differ();
    lemma_no_comment(seq!["@scope"@]);
    lemma_no_comment(seq!["@end"@]);
    let s1 = AsmView {
        scopes: s.scopes.push(crate::assembler::anon_name(s.anon)),
        anon: s.anon + 1,
        ..s
    };
    assert(parse_line(s, seq!["@scope"@]) == AsmOutcome::Done(s1, Ok(())));
    assert(s1.scopes.drop_last() == s.scopes);
    assert(AsmView { scopes: s1.scopes.drop_last(), ..s1 } =~= AsmView { anon: s.anon + 1, ..s });
}

/// A line whose first token is `@` is a comment: it leaves the assembler as
/// it was.
pub proof fn law_comment_tokens(s: AsmView, instr: Seq<Seq<char>>)
    requires
        instr.len() > 0,
        instr[0] == "@"@,
    ensures
        parse_line(s, instr) == AsmOutcome::Done(s, Ok(())),
{
    lemma_comment_first(instr);
    assert(instr.take(0) =~= Seq::<Seq<char>>::empty());
}

/// The first character of a trimmed string is no whitespace.
proof fn lemma_trim_first(s: Seq<char>)
    ensures
        trim(s).len() > 0 ==> !spec_is_whitespace(trim(s)[0]),
{
    lemma_trim_start_first(s);
    lemma_trim_end_first(trim_start(s));
}

proof fn lemma_trim_start_first(s: Seq<char>)
    ensures
        trim_start(s).len() > 0 ==> !spec_is_whitespace(trim_start(s)[0]),
    decreases s.len(),
{
    if s.len() > 0 && spec_is_whitespace(s[0]) {
        lemma_trim_start_first(s.drop_first());
    }
}

proof fn lemma_trim_end_first(s: Seq<char>)
    ensures
        s.len() > 0 && !spec_is_whitespace(s[0]) ==> trim_end(s).len() > 0 && trim_end(s)[0] == s[0],
        trim_end(s).len() > 0 ==> trim_end(s)[0] == s[0],
    decreases s.len(),
{
    if s.len() > 0 && spec_is_whitespace(s.last()) {
        lemma_trim_end_first(s.drop_last());
    }
}

/// A step of the tokenizer keeps every token but the open one.
proof fn lemma_lex_step_keeps(st: LexState, c: char)
    requires
        st.tokens.len() >= 1,
    ensures
        lex_step(st, c).tokens.len() >= st.tokens.len(),
        forall|k: int| 0 <= k < st.tokens.len() - 1 ==> lex_step(st, c).tokens[k] == #[trigger] st.tokens[k],
{
}

/// After `@` and a whitespace character, the first token stays `@`.
proof fn lemma_lex_comment(t: Seq<char>, i: int)
    requires
        2 <= i <= t.len(),
        t[0] == '@',
        !spec_is_whitespace(t[0]),
        spec_is_whitespace(t[1]),
    ensures
        lex(t.take(i)).tokens.len() >= 2,
        lex(t.take(i)).tokens[0] == seq!['@'],
    decreases i,
{
    if i == 2 {
        assert(t.take(2).drop_last() == t.take(1));
        assert(t.take(1).drop_last() =~= Seq::<char>::empty());
        assert(t.take(1).last() == '@');
        assert(t.take(2).last() == t[1]);
        let st0 = lex(Seq::<char>::empty());
        assert(st0.tokens == seq![Seq::<char>::empty()]);
        let st1 = lex(t.take(1));
        assert(st1.tokens =~= seq![seq!['@']]);
        assert(!st1.bracket);
    } else {
        lemma_lex_comment(t, i - 1);
        assert(t.take(i).drop_last() == t.take(i - 1));
        lemma_lex_step_keeps(lex(t.take(i - 1)), t.take(i).last());
    }
}

/// "Anything starting with `@` and a whitespace character after it is a
/// comment": such a line, tokenized, leaves the assembler as it was.
pub proof fn law_comment_line(s: AsmView, line: Seq<char>)
    requires
        trim(line).len() >= 2,
        trim(line)[0] == '@',
        spec_is_whitespace(trim(line)[1]),
    ensures
        parse_line(s, tokenize(line)) == AsmOutcome::Done(s, Ok(())),
{
    let t = trim(line);
    lemma_trim_first(line);
    lemma_lex_comment(t, t.len() as int);
    assert(t.take(t.len() as int) == t);
    let toks = tokenize(line);
    assert(toks.len() > 0 && toks[0] == seq!['@']);
    reveal_strlit("@");
    assert("@"@ =~= seq!['@']);
    law_comment_tokens(s, toks);
}

/// Whether linking the reference writes the byte at `loc`.
pub open spec fn writes_byte(tags: Map<Seq<char>, u16>, r: RefView, loc: int) -> bool {
    resolve(tags, r.tag) is Value && (loc == r.location || (r.size == 2 && loc == r.location + 1))
}

/// The references whose tags have no value, in order.
pub open spec fn unresolved_refs(tags: Map<Seq<char>, u16>, refs: Seq<RefView>) -> Seq<RefView>
    decreases refs.len(),
{
    if refs.len() == 0 {
        Seq::empty()
    } else if resolve(tags, refs.last().tag) is Unresolved {
        unresolved_refs(tags, refs.drop_last()).push(refs.last())
    } else {
        unresolved_refs(tags, refs.drop_last())
    }
}

/// Linking keeps the length of the code and keeps, in order, exactly the
/// references whose tags have no value.
pub proof fn law_link_keeps_unresolved(tags: Map<Seq<char>, u16>, code: Seq<u8>, refs: Seq<RefView>)
    requires
        link_refs(tags, code, refs) is Linking,
    ensures
        link_refs(tags, code, refs) matches LinkState::Linking { code: c, kept } && c.len()
            == code.len() && kept == unresolved_refs(tags, refs),
    decreases refs.len(),
{
    reveal(link_step);
    if refs.len() > 0 {
        assert(link_refs(tags, code, refs.drop_last()) is Linking);
        law_link_keeps_unresolved(tags, code, refs.drop_last());
    }
}

/// A step of linking that does not write the byte at `loc` keeps it.
proof fn lemma_step_keeps_byte(tags: Map<Seq<char>, u16>, c0: Seq<u8>, k0: Seq<RefView>, q: RefView, loc: int)
    requires
        link_step(tags, c0, k0, q) is Linking,
        0 <= loc < c0.len(),
        !writes_byte(tags, q, loc),
    ensures
        link_step(tags, c0, k0, q)->Linking_code.len() == c0.len(),
        link_step(tags, c0, k0, q)->Linking_code[loc] == c0[loc],
{
    reveal(link_step);
}

/// The step of linking a reference with a value writes the value.
proof fn lemma_step_writes(tags: Map<Seq<char>, u16>, c0: Seq<u8>, k0: Seq<RefView>, r: RefView)
    requires
        link_step(tags, c0, k0, r) is Linking,
        resolve(tags, r.tag) is Value,
    ensures
        ({
            let c = link_step(tags, c0, k0, r)->Linking_code;
            let v = resolve(tags, r.tag)->Value_0;
            &&& r.size == 1 ==> c[r.location as int] == #[verifier::truncate] (v as u8)
            &&& r.size == 2 ==> c[r.location as int] == low_byte(v) && c[r.location + 1] == high_byte(v)
            &&& r.size == 1 || r.size == 2
            &&& r.location < c.len()
            &&& r.size == 2 ==> r.location + 1 < c.len()
        }),
{
    reveal(link_step);
}

/// Linking fills in a reference whose tag has a value: its byte (or its two
/// bytes, the low one first) hold the value, unless a later reference
/// writes there too.
pub proof fn law_link_fills_reference(tags: Map<Seq<char>, u16>, code: Seq<u8>, refs: Seq<RefView>, i: int)
    requires
        link_refs(tags, code, refs) is Linking,
        0 <= i < refs.len(),
        resolve(tags, refs[i].tag) is Value,
        forall|j: int|
            i < j < refs.len() ==> !writes_byte(tags, #[trigger] refs[j], refs[i].location as int)
                && !writes_byte(tags, refs[j], refs[i].location + 1),
    ensures
        link_refs(tags, code, refs) matches LinkState::Linking { code: c, kept } && ({
            let r = refs[i];
            let v = resolve(tags, r.tag)->Value_0;
            &&& r.size == 1 ==> c[r.location as int] == #[verifier::truncate] (v as u8)
            &&& r.size == 2 ==> c[r.location as int] == low_byte(v) && c[r.location + 1] == high_byte(v)
            &&& r.size == 1 || r.size == 2
            &&& r.location < c.len()
            &&& r.size == 2 ==> r.location + 1 < c.len()
        }),
    decreases refs.len(),
{
    let last = refs.len() - 1;
    let init = refs.drop_last();
    assert(link_refs(tags, code, init) is Linking);
    let c0 = link_refs(tags, code, init)->Linking_code;
    let k0 = link_refs(tags, code, init)->Linking_kept;
    assert(link_refs(tags, code, refs) == link_step(tags, c0, k0, refs.last()));
    if i < last {
        assert forall|j: int| i < j < init.len() implies !writes_byte(
            tags,
            #[trigger] init[j],
            init[i].location as int,
        ) && !writes_byte(tags, init[j], init[i].location + 1) by {
            assert(init[j] == refs[j]);
        }
        law_link_fills_reference(tags, code, init, i);
        assert(init[i] == refs[i]);
        let r = refs[i];
        assert(refs.last() == refs[last]);
        lemma_step_keeps_byte(tags, c0, k0, refs.last(), r.location as int);
        if r.size == 2 {
            lemma_step_keeps_byte(tags, c0, k0, refs.last(), r.location + 1);
        }
    } else {
        assert(refs.last() == refs[i]);
        lemma_step_writes(tags, c0, k0, refs[i]);
    }
}

/// Linking leaves a byte that no reference with a value writes as it was.
pub proof fn law_link_keeps_other_bytes(tags: Map<Seq<char>, u16>, code: Seq<u8>, refs: Seq<RefView>, loc: int)
    requires
        link_refs(tags, code, refs) is Linking,
        0 <= loc < code.len(),
        forall|j: int| 0 <= j < refs.len() ==> !writes_byte(tags, #[trigger] refs[j], loc),
    ensures
        link_refs(tags, code, refs) matches LinkState::Linking { code: c, kept } && c[loc] == code[loc],
    decreases refs.len(),
{
    if refs.len() > 0 {
        assert(link_refs(tags, code, refs.drop_last()) is Linking);
        assert forall|j: int| 0 <= j < refs.drop_last().len() implies !writes_byte(
            tags,
            #[trigger] refs.drop_last()[j],
            loc,
        ) by {
            assert(refs.drop_last()[j] == refs[j]);
        }
        law_link_keeps_other_bytes(tags, code, refs.drop_last(), loc);
        law_link_keeps_unresolved(tags, code, refs.drop_last());
        assert(!writes_byte(tags, refs[refs.len() - 1], loc));
        let c0 = link_refs(tags, code, refs.drop_last())->Linking_code;
        let k0 = link_refs(tags, code, refs.drop_last())->Linking_kept;
        assert(link_refs(tags, code, refs) == link_step(tags, c0, k0, refs.last()));
        assert(refs.last() == refs[refs.len() - 1]);
        lemma_step_keeps_byte(tags, c0, k0, refs.last(), loc);
    }
}

/// The references that `unresolved_refs` keeps have no value.
proof fn lemma_unresolved_have_no_value(tags: Map<Seq<char>, u16>, refs: Seq<RefView>)
    ensures
        forall|j: int| 0 <= j < unresolved_refs(tags, refs).len() ==> resolve(
            tags,
            (#[trigger] unresolved_refs(tags, refs)[j]).tag,
        ) is Unresolved,
    decreases refs.len(),
{
    if refs.len() > 0 {
        lemma_unresolved_have_no_value(tags, refs.drop_last());
    }
}

/// Linking references none of which has a value keeps the code and all of
/// them.
proof fn lemma_link_unresolved_only(tags: Map<Seq<char>, u16>, code: Seq<u8>, refs: Seq<RefView>)
    requires
        forall|j: int| 0 <= j < refs.len() ==> resolve(tags, (#[trigger] refs[j]).tag) is Unresolved,
    ensures
        link_refs(tags, code, refs) == (LinkState::Linking { code, kept: refs }),
    decreases refs.len(),
{
    reveal(link_step);
    if refs.len() > 0 {
        assert forall|j: int| 0 <= j < refs.drop_last().len() implies resolve(
            tags,
            (#[trigger] refs.drop_last()[j]).tag,
        ) is Unresolved by {
            assert(refs.drop_last()[j] == refs[j]);
        }
        lemma_link_unresolved_only(tags, code, refs.drop_last());
        assert(refs.last() == refs[refs.len() - 1]);
        assert(refs.drop_last().push(refs.last()) == refs);
    } else {
        assert(refs =~= Seq::<RefView>::empty());
    }
}

/// Linking a linked program again, with the same tags, changes nothing: the
/// references it kept have no value, and linking keeps them and the code as
/// they are.
pub proof fn law_relink_changes_nothing(tags: Map<Seq<char>, u16>, code: Seq<u8>, refs: Seq<RefView>)
    requires
        link_refs(tags, code, refs) is Linking,
    ensures
        link_refs(tags, code, refs) matches LinkState::Linking { code: c, kept } && link_refs(
            tags,
            c,
            kept,
        ) == (LinkState::Linking { code: c, kept }),
{
    law_link_keeps_unresolved(tags, code, refs);
    lemma_unresolved_have_no_value(tags, refs);
    let c = link_refs(tags, code, refs)->Linking_code;
    lemma_link_unresolved_only(tags, c, unresolved_refs(tags, refs));
}

/// An operand of an expression: a token (not a parenthesis) with a value.
pub open spec fn operand_value(tags: Map<Seq<char>, u16>, t: Seq<char>) -> Option<i16> {
    if !is_token(t, ')') && !is_token(t, '(') && atom_value(tags, t) is Value {
        Some(atom_value(tags, t)->Value_0)
    } else {
        None
    }
}

/// `l op r` over the integers for the four operators, `None` for a
/// division by zero; division rounds toward zero.
pub open spec fn int_op(op: char, l: int, r: int) -> Option<int> {
    if op == '+' {
        Some(l + r)
    } else if op == '-' {
        Some(l - r)
    } else if op == '*' {
        Some(l * r)
    } else if r == 0 {
        None
    } else {
        let al = if l < 0 { -l } else { l };
        let ar = if r < 0 { -r } else { r };
        if (l < 0) == (r < 0) {
            Some(al / ar)
        } else {
            Some(-(al / ar))
        }
    }
}

/// An integer result as an expression's value: the result where it fits in
/// 16 bits two's complement, a fault where it does not or where there is
/// none (a division by zero).
pub open spec fn in_i16(v: Option<int>) -> Eval {
    match v {
        Some(x) => if -0x8000 <= x <= 0x7fff {
            Eval::Value(x as i16)
        } else {
            Eval::Fault
        },
        None => Eval::Fault,
    }
}

/// The evaluator's arithmetic is integer arithmetic checked to fit `i16`.
proof fn lemma_apply_is_int_op(op: Seq<char>, l: i16, r: i16)
    requires
        is_operator(op),
    ensures
        crate::linker::apply_op(op[0], l, r) == in_i16(int_op(op[0], l as int, r as int)),
{
    assert(seq!['+'][0] == '+');
    assert(seq!['-'][0] == '-');
    assert(seq!['*'][0] == '*');
    assert(seq!['/'][0] == '/');
}

/// `a op b` has the value of `a op b` over the integers where it fits in
/// `i16` (a fault where it does not, or on a division by zero).
pub proof fn law_binary_expression(tags: Map<Seq<char>, u16>, a: Seq<char>, op: Seq<char>, b: Seq<char>)
    requires
        operand_value(tags, a) is Some,
        operand_value(tags, b) is Some,
        is_operator(op),
    ensures
        eval_tokens(tags, seq![a, op, b], 3).0 == in_i16(
            int_op(op[0], operand_value(tags, a).unwrap() as int, operand_value(tags, b).unwrap() as int),
        ),
{
    let toks = seq![a, op, b];
    assert(toks[2] == b && toks[1] == op && toks[0] == a);
    assert(eval_tokens(tags, toks, 1) == (Eval::Value(operand_value(tags, a).unwrap()), 0int));
    lemma_apply_is_int_op(op, operand_value(tags, a).unwrap(), operand_value(tags, b).unwrap());
}

/// Operators bind from the left, with no precedence: `a op1 b op2 c` is
/// `(a op1 b) op2 c`.
pub proof fn law_left_to_right(
    tags: Map<Seq<char>, u16>,
    a: Seq<char>,
    op1: Seq<char>,
    b: Seq<char>,
    op2: Seq<char>,
    c: Seq<char>,
)
    requires
        operand_value(tags, a) is Some,
        operand_value(tags, b) is Some,
        operand_value(tags, c) is Some,
        is_operator(op1),
        is_operator(op2),
    ensures
        eval_tokens(tags, seq![a, op1, b, op2, c], 5).0 == match in_i16(
            int_op(op1[0], operand_value(tags, a).unwrap() as int, operand_value(tags, b).unwrap() as int),
        ) {
            Eval::Value(y) => in_i16(int_op(op2[0], y as int, operand_value(tags, c).unwrap() as int)),
            other => other,
        },
{
    let toks = seq![a, op1, b, op2, c];
    assert(toks[4] == c && toks[3] == op2 && toks[2] == b && toks[1] == op1 && toks[0] == a);
    assert(eval_tokens(tags, toks, 1) == (Eval::Value(operand_value(tags, a).unwrap()), 0int));
    assert(eval_tokens(tags, toks, 3).1 == 0);
    lemma_apply_is_int_op(op1, operand_value(tags, a).unwrap(), operand_value(tags, b).unwrap());
    match eval_tokens(tags, toks, 3).0 {
        Eval::Value(y) => lemma_apply_is_int_op(op2, y, operand_value(tags, c).unwrap()),
        _ => {},
    }
}

/// The tokens `(` and `)` are no operators.
proof fn lemma_parens_no_operators()
    ensures
        !is_operator(seq!['(']),
        !is_operator(seq![')']),
        is_token(seq!['('], '('),
        is_token(seq![')'], ')'),
        !is_token(seq!['('], ')'),
        !is_token(seq![')'], '('),
{
    assert(seq!['('][0] == '(');
    assert(seq![')'][0] == ')');
    assert(seq!['+'][0] == '+');
    assert(seq!['-'][0] == '-');
    assert(seq!['*'][0] == '*');
    assert(seq!['/'][0] == '/');
}

/// Parentheses group: `a op1 ( b op2 c )` is `a op1 (b op2 c)`.
pub proof fn law_parentheses_group(
    tags: Map<Seq<char>, u16>,
    a: Seq<char>,
    op1: Seq<char>,
    b: Seq<char>,
    op2: Seq<char>,
    c: Seq<char>,
)
    requires
        operand_value(tags, a) is Some,
        operand_value(tags, b) is Some,
        operand_value(tags, c) is Some,
        is_operator(op1),
        is_operator(op2),
    ensures
        eval_tokens(tags, seq![a, op1, seq!['('], b, op2, c, seq![')']], 7).0 == match in_i16(
            int_op(op2[0], operand_value(tags, b).unwrap() as int, operand_value(tags, c).unwrap() as int),
        ) {
            Eval::Value(y) => in_i16(int_op(op1[0], operand_value(tags, a).unwrap() as int, y as int)),
            other => other,
        },
{
    let toks = seq![a, op1, seq!['('], b, op2, c, seq![')']];
    assert(toks[6] == seq![')'] && toks[5] == c && toks[4] == op2 && toks[3] == b);
    assert(toks[2] == seq!['('] && toks[1] == op1 && toks[0] == a);
    lemma_parens_no_operators();
    assert(eval_tokens(tags, toks, 4) == (Eval::Value(operand_value(tags, b).unwrap()), 2int));
    assert(eval_tokens(tags, toks, 1) == (Eval::Value(operand_value(tags, a).unwrap()), 0int));
    assert(eval_tokens(tags, toks, 6).1 == 2);
    lemma_apply_is_int_op(op2, operand_value(tags, b).unwrap(), operand_value(tags, c).unwrap());
    match eval_tokens(tags, toks, 6).0 {
        Eval::Value(y) => lemma_apply_is_int_op(op1, operand_value(tags, a).unwrap(), y),
        _ => {},
    }
}

/// Parentheses group wherever they stand, also at the front and before
/// more of the expression: `( a op1 b ) op2 c` is `(a op1 b) op2 c`.
pub proof fn law_parentheses_group_first(
    tags: Map<Seq<char>, u16>,
    a: Seq<char>,
    op1: Seq<char>,
    b: Seq<char>,
    op2: Seq<char>,
    c: Seq<char>,
)
    requires
        operand_value(tags, a) is Some,
        operand_value(tags, b) is Some,
        operand_value(tags, c) is Some,
        is_operator(op1),
        is_operator(op2),
    ensures
        eval_tokens(tags, seq![seq!['('], a, op1, b, seq![')'], op2, c], 7).0 == match in_i16(
            int_op(op1[0], operand_value(tags, a).unwrap() as int, operand_value(tags, b).unwrap() as int),
        ) {
            Eval::Value(y) => in_i16(int_op(op2[0], y as int, operand_value(tags, c).unwrap() as int)),
            other => other,
        },
{
    let toks = seq![seq!['('], a, op1, b, seq![')'], op2, c];
    assert(toks[6] == c && toks[5] == op2 && toks[4] == seq![')'] && toks[3] == b);
    assert(toks[2] == op1 && toks[1] == a && toks[0] == seq!['(']);
    lemma_parens_no_operators();
    assert(eval_tokens(tags, toks, 2) == (Eval::Value(operand_value(tags, a).unwrap()), 0int));
    assert(eval_tokens(tags, toks, 4).1 == 0);
    assert(eval_tokens(tags, toks, 5) == eval_tokens(tags, toks, 4));
    lemma_apply_is_int_op(op1, operand_value(tags, a).unwrap(), operand_value(tags, b).unwrap());
    match eval_tokens(tags, toks, 4).0 {
        Eval::Value(y) => {
            lemma_apply_is_int_op(op2, y, operand_value(tags, c).unwrap());
        },
        _ => {},
    }
}

/// A parenthesised expression on its own has the value of what it holds:
/// `( a op b )` is `a op b`.
pub proof fn law_parentheses_whole(tags: Map<Seq<char>, u16>, a: Seq<char>, op: Seq<char>, b: Seq<char>)
    requires
        operand_value(tags, a) is Some,
        operand_value(tags, b) is Some,
        is_operator(op),
    ensures
        eval_tokens(tags, seq![seq!['('], a, op, b, seq![')']], 5).0 == in_i16(
            int_op(op[0], operand_value(tags, a).unwrap() as int, operand_value(tags, b).unwrap() as int),
        ),
{
    let toks = seq![seq!['('], a, op, b, seq![')']];
    assert(toks[4] == seq![')'] && toks[3] == b && toks[2] == op && toks[1] == a && toks[0] == seq!['(']);
    lemma_parens_no_operators();
    assert(eval_tokens(tags, toks, 2) == (Eval::Value(operand_value(tags, a).unwrap()), 0int));
    assert(eval_tokens(tags, toks, 4).1 == 0);
    lemma_apply_is_int_op(op, operand_value(tags, a).unwrap(), operand_value(tags, b).unwrap());
}

/// In an expression, a number of the `i16` range stands for itself (a name
/// that reads as a number is that number, whatever tags there are).
pub proof fn law_number_in_expression(tags: Map<Seq<char>, u16>, t: Seq<char>, x: i32)
    requires
        !number_panics(t),
        number_value(t) == Some(x),
        -0x8000 <= x <= 0x7fff,
    ensures
        atom_value(tags, t) matches Eval::Value(v) && v as int == x,
{
}

/// A 16-bit value read as two's complement.
pub open spec fn signed16(v: u16) -> int {
    if v < 0x8000 {
        v as int
    } else {
        v - 0x10000
    }
}

/// `(` and `)` are no numbers.
proof fn lemma_parens_no_numbers()
    ensures
        number_value(seq!['(']) is None,
        number_value(seq![')']) is None,
        !number_panics(seq!['(']),
        !number_panics(seq![')']),
{
    let a = seq!['('];
    let b = seq![')'];
    assert(a.drop_last() =~= Seq::<char>::empty());
    assert(b.drop_last() =~= Seq::<char>::empty());
    assert(crate::number::digits_value(a, 10) is None);
    assert(crate::number::digits_value(b, 10) is None);
    assert(crate::number::byte_len(a.drop_last()) == 0);
    assert(crate::number::byte_len(a) == 1);
    assert(crate::number::byte_len(b.drop_last()) == 0);
    assert(crate::number::byte_len(b) == 1);
}

/// In an expression, a name that has a tag stands for the tag's value read
/// as a 16-bit two's-complement number, whatever the value.
pub proof fn law_tag_in_expression(tags: Map<Seq<char>, u16>, t: Seq<char>)
    requires
        tags.contains_key(t),
        !number_panics(t),
        number_value(t) is None,
    ensures
        atom_value(tags, t) matches Eval::Value(v) && v as int == signed16(tags[t]),
{
    let v = tags[t];
    assert(v < 0x8000 ==> (v as i16) as int == v as int) by (bit_vector);
    assert(v >= 0x8000 ==> (v as i16) as int == v as int - 0x10000) by (bit_vector);
}

/// The expression `t + k`, a name with a tag and a number of `0..=0x7fff`,
/// has the tag's value (two's complement) plus the number, wherever the sum
/// fits in `i16`; as 16 bits, the sum of the tag's value and the number
/// modulo 2^16.
pub proof fn law_tag_plus_number(tags: Map<Seq<char>, u16>, t: Seq<char>, k: Seq<char>, x: i32)
    requires
        tags.contains_key(t),
        !number_panics(t),
        number_value(t) is None,
        !is_token(t, '('),
        !is_token(t, ')'),
        !number_panics(k),
        number_value(k) == Some(x),
        0 <= x <= 0x7fff,
        -0x8000 <= signed16(tags[t]) + x <= 0x7fff,
    ensures
        eval_tokens(tags, seq![t, seq!['+'], k], 3).0 matches Eval::Value(r) && r as int == signed16(tags[t])
            + x && (r as u16) as int == (tags[t] + x) % 0x10000,
{
    law_tag_in_expression(tags, t);
    lemma_parens_no_numbers();
    assert(!is_token(k, '(') && !is_token(k, ')')) by {
        if is_token(k, '(') || is_token(k, ')') {
            assert(number_value(k) is None);
        }
    }
    assert(x as i16 == x);
    assert(operand_value(tags, k) == Some(x as i16));
    assert(is_operator(seq!['+']));
    law_binary_expression(tags, t, seq!['+'], k);
    assert(seq!['+'][0] == '+');
    let r = eval_tokens(tags, seq![t, seq!['+'], k], 3).0->Value_0;
    assert(r < 0 ==> (r as u16) as int == r as int + 0x10000) by (bit_vector);
    assert(r >= 0 ==> (r as u16) as int == r as int) by (bit_vector);
    let v = tags[t] as int;
    if v < 0x8000 {
        assert((v + x) % 0x10000 == v + x);
    } else if r < 0 {
        assert((v + x) % 0x10000 == v + x);
    } else {
        assert((v + x) % 0x10000 == v + x - 0x10000);
    }
}

/// A reference `t + k` (a name with a tag, `+`, a number of `0..=0x7fff`) of
/// two bytes is linked to the low byte and then the high byte of the tag's
/// value plus the number modulo 2^16, wherever the sum fits in `i16` read as
/// two's complement, and is not kept; the rest of the code stays.
pub proof fn law_link_tag_plus_number(
    tags: Map<Seq<char>, u16>,
    t: Seq<char>,
    k: Seq<char>,
    x: i32,
    name: Seq<char>,
    code: Seq<u8>,
    loc: u16,
)
    requires
        tags.contains_key(t),
        !number_panics(t),
        number_value(t) is None,
        !is_token(t, '('),
        !is_token(t, ')'),
        !number_panics(k),
        number_value(k) == Some(x),
        0 <= x <= 0x7fff,
        -0x8000 <= signed16(tags[t]) + x <= 0x7fff,
        crate::linker::expression_tokens(name) == seq![t, seq!['+'], k],
        !tags.contains_key(name),
        loc + 1 < code.len(),
    ensures
        ({
            let v = (tags[t] + x) % 0x10000;
            link_refs(tags, code, seq![RefView { tag: name, location: loc, size: 2 }]) == LinkState::Linking {
                code: code.update(loc as int, (v % 256) as u8).update(loc + 1, (v / 256) as u8),
                kept: Seq::empty(),
            }
        }),
{
    law_tag_plus_number(tags, t, k, x);
    reveal(resolve);
    reveal(link_step);
    let rf = RefView { tag: name, location: loc, size: 2 };
    let refs = seq![rf];
    assert(refs.drop_last() =~= Seq::<RefView>::empty());
    assert(refs.last() == rf);
    let r = eval_tokens(tags, seq![t, seq!['+'], k], 3).0->Value_0;
    assert(resolve(tags, name) == crate::linker::Resolution::Value(r as u16));
    let u = r as u16;
    assert((u & 0xFF) as u8 == u % 256) by (bit_vector);
    assert((u >> 8) as u8 == u / 256) by (bit_vector);
    assert(u as int == (tags[t] + x) % 0x10000);
    assert(link_refs(tags, code, refs.drop_last()) == LinkState::Linking { code, kept: Seq::empty() });
    assert(link_refs(tags, code, refs) == link_step(tags, code, Seq::empty(), rf));
    assert(crate::program::low_byte(u) == ((tags[t] + x) % 0x10000 % 256) as u8);
    assert(crate::program::high_byte(u) == ((tags[t] + x) % 0x10000 / 256) as u8);
}

/// `@alloc name size` places the variable at the allocation address, as a
/// tag of the current namespace, and moves the allocation address on by
/// its size; so consecutive allocations lie one after the other.
pub proof fn law_alloc(s: AsmView, name: Seq<char>, size: Seq<char>)
    requires
        name != "@"@,
        !number_panics(size),
        number_value(size) is Some,
        s.allocator + (number_value(size).unwrap() as u16) <= 0xFFFF,
    ensures
        parse_line(s, seq!["@alloc"@, name, size]) matches AsmOutcome::Done(s1, r1) && r1 is Ok
            && s1.writer.program.tags.contains_key(qualify(s.scopes) + name)
            && s1.writer.program.tags[qualify(s.scopes) + name] == s.allocator && s1.allocator
            == s.allocator + (number_value(size).unwrap() as u16) && s1.scopes == s.scopes
            && s1.writer.program.code == s.writer.program.code,
{
    lemma_directives_differ();
    lemma_at_is_no_number();
    lemma_no_comment(seq!["@alloc"@, name, size]);
}

/// `@define name value` makes a tag of the current namespace with that
/// value (cut to 16 bits).
pub proof fn law_define(s: AsmView, name: Seq<char>, value: Seq<char>)
    requires
        name != "@"@,
        !number_panics(value),
        number_value(value) is Some,
    ensures
        parse_line(s, seq!["@define"@, name, value]) == AsmOutcome::Done(
            define_tag(s, name, number_value(value).unwrap() as u16),
            Ok(()),
        ),
{
    lemma_directives_differ();
    lemma_at_is_no_number();
    lemma_no_comment(seq!["@define"@, name, value]);
}

/// `name:` makes a tag of the current namespace at the program counter,
/// where the name is no number; `address:` pads the code with zero bytes up
/// to that address, where the code ends before it, and moves the program
/// counter there.
pub proof fn law_label(s: AsmView, word: Seq<char>)
    requires
        word.len() > 0,
        word.last() == ':',
        !number_panics(word.drop_last()),
    ensures
        parse_line(s, seq![word]) == AsmOutcome::Done(
            match number_value(word.drop_last()) {
                Some(x) => with_writer(s, seek_to(pad_to_of(s.writer, x as u16), x as u16)),
                None => define_tag(s, word.drop_last(), pc16(s.writer)),
            },
            Ok(()),
        ),
{
    lemma_directives_differ();
    reveal_strlit("@end");
    reveal_strlit("@scope");
    reveal_strlit("@");
    if word == "@"@ {
        assert(word.last() == '@');
    }
    lemma_no_comment(seq![word]);
    if word == "@end"@ {
        assert(word.last() == 'd');
    }
    if word == "@scope"@ {
        assert(word.last() == 'e');
    }
}

/// One call on a writer.
pub enum WriterOp {
    Write(u8),
    Seek(u16),
    PushPc,
    PopPc,
}

/// The writer after one call.
pub open spec fn apply_op(w: WriterView, op: WriterOp) -> WriterView {
    match op {
        WriterOp::Write(b) => crate::program::write_byte(w, b),
        WriterOp::Seek(p) => seek_to(w, p),
        WriterOp::PushPc => push_pc_of(w),
        WriterOp::PopPc => pop_pc_of(w),
    }
}

/// The writer after the calls, one after the other.
pub open spec fn apply_ops(w: WriterView, ops: Seq<WriterOp>) -> WriterView
    decreases ops.len(),
{
    if ops.len() == 0 {
        w
    } else {
        apply_op(apply_ops(w, ops.drop_last()), ops.last())
    }
}

/// How many more saves than restores the calls make.
pub open spec fn pc_depth(ops: Seq<WriterOp>) -> int
    decreases ops.len(),
{
    if ops.len() == 0 {
        0
    } else {
        pc_depth(ops.drop_last()) + match ops.last() {
            WriterOp::PushPc => 1int,
            WriterOp::PopPc => -1int,
            _ => 0int,
        }
    }
}

/// Whether no prefix of the calls restores more than it saved.
pub open spec fn never_below(ops: Seq<WriterOp>) -> bool
    decreases ops.len(),
{
    ops.len() == 0 || (never_below(ops.drop_last()) && pc_depth(ops) >= 0)
}

/// Calls that never restore more than they saved keep the saved counters
/// that were there before, under those they add.
proof fn lemma_ops_keep_stack(w: WriterView, ops: Seq<WriterOp>)
    requires
        never_below(ops),
    ensures
        apply_ops(w, ops).pc_stack.len() == w.pc_stack.len() + pc_depth(ops),
        apply_ops(w, ops).pc_stack.take(w.pc_stack.len() as int) == w.pc_stack,
    decreases ops.len(),
{
    if ops.len() == 0 {
        assert(w.pc_stack.take(w.pc_stack.len() as int) == w.pc_stack);
    } else {
        lemma_ops_keep_stack(w, ops.drop_last());
        let v = apply_ops(w, ops.drop_last());
        let n = w.pc_stack.len() as int;
        if ops.drop_last().len() == 0 {
            assert(pc_depth(ops.drop_last()) == 0);
        } else {
            assert(never_below(ops.drop_last()));
            assert(pc_depth(ops.drop_last()) >= 0);
        }
        assert(v.pc_stack.len() >= n);
        assert(apply_ops(w, ops) == apply_op(v, ops.last()));
        match ops.last() {
            WriterOp::PushPc => {
                assert(v.pc_stack.push(v.pc).take(n) =~= v.pc_stack.take(n));
            },
            WriterOp::PopPc => {
                assert(v.pc_stack.drop_last().take(n) =~= v.pc_stack.take(n));
            },
            _ => {},
        }
    }
}

/// "Restore the program counter": a restore gives back the counter of the
/// matching save, whatever writes, seeks and matched save/restore pairs
/// came in between, and the saved counters below it; the code keeps what
/// was written in between.
pub proof fn law_pop_restores_saved_pc(w: WriterView, ops: Seq<WriterOp>)
    requires
        never_below(ops),
        pc_depth(ops) == 0,
    ensures
        pop_pc_of(apply_ops(push_pc_of(w), ops)).pc == w.pc,
        pop_pc_of(apply_ops(push_pc_of(w), ops)).pc_stack == w.pc_stack,
        pop_pc_of(apply_ops(push_pc_of(w), ops)).program == apply_ops(push_pc_of(w), ops).program,
{
    let w1 = push_pc_of(w);
    lemma_ops_keep_stack(w1, ops);
    let v = apply_ops(w1, ops);
    assert(v.pc_stack == w1.pc_stack);
    assert(w1.pc_stack == w.pc_stack.push(w.pc));
    assert(w.pc_stack.push(w.pc).drop_last() == w.pc_stack);
}


/// `@string text` writes exactly the UTF-8 bytes of the text, as it was
/// tokenized (upper and lower case alike), at the program counter: the
/// program counter moves past them and every other byte of the code, and
/// everything else, stays. For ASCII text the bytes are the characters
/// themselves, one byte each.
pub proof fn law_string_writes_its_bytes(s: AsmView, text: Seq<char>)
    requires
        !crate::assembler::write_faults(s.writer, vstd::utf8::encode_utf8(text).len()),
    ensures
        parse_line(s, seq!["@string"@, text]) matches AsmOutcome::Done(s2, r) && r is Ok && ({
            let e = vstd::utf8::encode_utf8(text);
            let c = s2.writer.program.code;
            let c0 = s.writer.program.code;
            let pc = s.writer.pc;
            &&& e.len() > 0 ==> c.len() >= pc + e.len()
            &&& forall|i: int| 0 <= i < e.len() ==> #[trigger] c[pc + i] == e[i]
            &&& forall|j: int|
                0 <= j < c.len() && !(pc <= j < pc + e.len()) ==> #[trigger] c[j] == if j < c0.len() {
                    c0[j]
                } else {
                    0u8
                }
            &&& vstd::utf8::is_ascii_chars(text) ==> e.len() == text.len() && forall|i: int|
                0 <= i < text.len() ==> #[trigger] c[pc + i] == text[i] as u8
            &&& s2 == (AsmView {
                writer: WriterView {
                    program: ProgramView { code: c, ..s.writer.program },
                    pc: pc + e.len(),
                    ..s.writer
                },
                ..s
            })
        }),
{
    lemma_directives_differ();
    let instr = seq!["@string"@, text];
    let a = instr.drop_last();
    assert(a =~= seq!["@string"@]);
    assert(a.drop_last() =~= Seq::<Seq<char>>::empty());
    assert(comment_start(a.drop_last()) == 0);
    assert(a.last() == "@string"@);
    assert(a.last() != "@"@);
    assert(comment_start(a) == 1);
    assert(instr[0] == "@string"@);
    assert(comment_start(instr) == 2);
    assert(instr.take(2) =~= instr);
    let e = vstd::utf8::encode_utf8(text);
    crate::code_laws::lemma_write_all_places(s.writer, e);
    crate::program::lemma_write_all_frame(s.writer, e);
    let w2 = crate::program::write_all(s.writer, e);
    assert(parse_statement(s, instr) == AsmOutcome::Done(with_writer(s, w2), Ok(())));
    assert(parse_line(s, instr) == AsmOutcome::Done(with_writer(s, w2), Ok(())));
    assert(w2.program =~= (ProgramView { code: w2.program.code, ..s.writer.program }));
    assert(w2 =~= (WriterView {
        program: ProgramView { code: w2.program.code, ..s.writer.program },
        pc: s.writer.pc + e.len(),
        ..s.writer
    }));
    if vstd::utf8::is_ascii_chars(text) {
        vstd::utf8::is_ascii_chars_encode_utf8(text);
        assert forall|i: int| 0 <= i < text.len() implies #[trigger] parse_line(s, instr)->Done_0.writer.program.code[s.writer.pc + i] == text[i] as u8 by {
            assert(e[i] == text[i] as u8);
        }
    }
}


/// A line whose first word neither starts with `@` nor ends with `:`, and
/// with no comment, is an instruction: it does what `assemble` says (its
/// pattern looked up in the table, its bytes and operands written).
pub proof fn law_line_is_instruction(s: AsmView, instr: Seq<Seq<char>>)
    requires
        instr.len() > 0,
        instr[0].len() > 0,
        instr[0][0] != '@',
        instr[0].last() != ':',
        forall|j: int| 0 <= j < instr.len() ==> #[trigger] instr[j] != "@"@,
    ensures
        parse_line(s, instr) == crate::assembler::assemble(s, instr),
{
    lemma_no_comment(instr);
    reveal_strlit("@end");
    reveal_strlit("@scope");
    reveal_strlit("@string");
    reveal_strlit("@mod");
    reveal_strlit("@function");
    reveal_strlit("@alloc_from");
    reveal_strlit("@define");
    reveal_strlit("@alloc");
    assert("@end"@[0] == '@');
    assert("@scope"@[0] == '@');
    assert("@string"@[0] == '@');
    assert("@mod"@[0] == '@');
    assert("@function"@[0] == '@');
    assert("@alloc_from"@[0] == '@');
    assert("@define"@[0] == '@');
    assert("@alloc"@[0] == '@');
}


/// A two-byte reference to a tag's name is linked to the tag's value, its
/// low byte `v % 256` and then its high byte `v / 256`, whatever the value,
/// and is not kept; the rest of the code stays.
pub proof fn law_link_tag_reference(tags: Map<Seq<char>, u16>, name: Seq<char>, code: Seq<u8>, loc: u16)
    requires
        tags.contains_key(name),
        loc + 1 < code.len(),
    ensures
        ({
            let v = tags[name];
            link_refs(tags, code, seq![RefView { tag: name, location: loc, size: 2 }]) == LinkState::Linking {
                code: code.update(loc as int, (v % 256) as u8).update(loc + 1, (v / 256) as u8),
                kept: Seq::empty(),
            }
        }),
{
    reveal(resolve);
    reveal(link_step);
    let rf = RefView { tag: name, location: loc, size: 2 };
    let refs = seq![rf];
    assert(refs.drop_last() =~= Seq::<RefView>::empty());
    assert(refs.last() == rf);
    let u = tags[name];
    assert((u & 0xFF) as u8 == u % 256) by (bit_vector);
    assert((u >> 8) as u8 == u / 256) by (bit_vector);
    assert(link_refs(tags, code, refs.drop_last()) == LinkState::Linking { code, kept: Seq::empty() });
    assert(link_refs(tags, code, refs) == link_step(tags, code, Seq::empty(), rf));
}

} // verus!
