//! Splits source lines into tokens.
use vstd::prelude::*;
use crate::text::{
    chars_of, is_alphanumeric, is_whitespace, spec_is_alphanumeric, spec_is_whitespace,
    spec_to_lowercase, string_of, to_lowercase,
};

verus! {

/// A string with leading whitespace removed.
pub open spec fn trim_start(s: Seq<char>) -> Seq<char>
    decreases s.len(),
{
    if s.len() > 0 && spec_is_whitespace(s[0]) {
        trim_start(s.drop_first())
    } else {
        s
    }
}

/// A string with trailing whitespace removed.
pub open spec fn trim_end(s: Seq<char>) -> Seq<char>
    decreases s.len(),
{
    if s.len() > 0 && spec_is_whitespace(s.last()) {
        trim_end(s.drop_last())
    } else {
        s
    }
}

/// A string with leading and trailing whitespace removed, as `str::trim`
/// gives it.
pub open spec fn trim(s: Seq<char>) -> Seq<char> {
    trim_end(trim_start(s))
}

/// Characters that stay inside a word besides letters and digits.
pub open spec fn word_punct(c: char) -> bool {
    c == '_' || c == '@' || c == '$' || c == '\'' || c == ':'
}

/// The tokenizer's state after some characters of a line: the tokens so far
/// (the last one still open, possibly empty), whether it is inside `{..}`,
/// and whether the previous character inside `{..}` was an escaping `/`.
pub struct LexState {
    pub tokens: Seq<Seq<char>>,
    pub bracket: bool,
    pub escape: bool,
}

/// The open token extended by some characters.
pub open spec fn extend_last(tokens: Seq<Seq<char>>, cs: Seq<char>) -> Seq<Seq<char>> {
    tokens.update(tokens.len() - 1, tokens.last() + cs)
}

/// One character through the tokenizer. Inside `{..}` every character goes
/// into the token as it is, except that `}` closes the brackets and `/`
/// makes the next character taken as it is (so `/}` is a `}` and `//` a
/// `/`). Outside, `{` opens brackets,
/// whitespace ends a token, a character that is neither a letter, a digit
/// nor one of `_@$':` is a token of its own (in lower case), and the others
/// continue the token.
pub open spec fn lex_step(st: LexState, c: char) -> LexState {
    let empty = st.tokens.last().len() == 0;
    if st.bracket {
        if c == '}' && !st.escape {
            LexState { bracket: false, ..st }
        } else if c == '/' && !st.escape {
            LexState { escape: true, ..st }
        } else {
            LexState { tokens: extend_last(st.tokens, seq![c]), escape: false, ..st }
        }
    } else if c == '{' {
        LexState { bracket: true, ..st }
    } else if spec_is_whitespace(c) {
        if !empty {
            LexState { tokens: st.tokens.push(Seq::empty()), ..st }
        } else {
            st
        }
    } else if !spec_is_alphanumeric(c) && !word_punct(c) {
        let t = if empty {
            st.tokens
        } else {
            st.tokens.push(Seq::empty())
        };
        LexState { tokens: extend_last(t, spec_to_lowercase(c)).push(Seq::empty()), ..st }
    } else {
        LexState { tokens: extend_last(st.tokens, seq![c]), ..st }
    }
}

/// The tokenizer's state after the characters of `s`.
pub open spec fn lex(s: Seq<char>) -> LexState
    decreases s.len(),
{
    if s.len() == 0 {
        LexState { tokens: seq![Seq::empty()], bracket: false, escape: false }
    } else {
        lex_step(lex(s.drop_last()), s.last())
    }
}

/// The tokens of a line: none for a blank line; else those of the trimmed
/// line, without a last empty one.
pub open spec fn tokenize(line: Seq<char>) -> Seq<Seq<char>> {
    let t = trim(line);
    if t.len() == 0 {
        Seq::empty()
    } else {
        let toks = lex(t).tokens;
        if toks.last().len() == 0 {
            toks.drop_last()
        } else {
            toks
        }
    }
}

/// Strings as plain values.
pub open spec fn strings_view(v: Seq<String>) -> Seq<Seq<char>> {
    v.map_values(|s: String| s@)
}

/// Token lists as plain values.
pub open spec fn char_lists_view(v: Seq<Vec<char>>) -> Seq<Seq<char>> {
    v.map_values(|s: Vec<char>| s@)
}

proof fn lemma_trim_start(s: Seq<char>, i: int)
    requires
        0 <= i <= s.len(),
        forall|k: int| 0 <= k < i ==> spec_is_whitespace(#[trigger] s[k]),
        i == s.len() || !spec_is_whitespace(s[i]),
    ensures
        trim_start(s) == s.skip(i),
    decreases i,
{
    if i > 0 {
        assert forall|k: int| 0 <= k < i - 1 implies spec_is_whitespace(#[trigger] s.drop_first()[k]) by {
            assert(s.drop_first()[k] == s[k + 1]);
        }
        lemma_trim_start(s.drop_first(), i - 1);
        assert(s.drop_first().skip(i - 1) == s.skip(i));
    } else {
        assert(s.skip(0) == s);
    }
}

proof fn lemma_trim_end(s: Seq<char>, j: int)
    requires
        0 <= j <= s.len(),
        forall|k: int| j <= k < s.len() ==> spec_is_whitespace(#[trigger] s[k]),
        j == 0 || !spec_is_whitespace(s[j - 1]),
    ensures
        trim_end(s) == s.take(j),
    decreases s.len() - j,
{
    if j < s.len() {
        lemma_trim_end(s.drop_last(), j);
        assert(s.drop_last().take(j) == s.take(j));
    } else {
        assert(s.take(j) == s);
    }
}

/// The characters of a line without leading and trailing whitespace.
pub fn trim_chars(s: &Vec<char>) -> (r: Vec<char>)
    ensures
        r@ == trim(s@),
{
    let mut i: usize = 0;
    while i < s.len() && is_whitespace(s[i])
        invariant
            i <= s.len(),
            forall|k: int| 0 <= k < i ==> spec_is_whitespace(#[trigger] s@[k]),
        decreases s.len() - i,
    {
        i = i + 1;
    }
    proof {
        lemma_trim_start(s@, i as int);
    }
    let ghost t = s@.skip(i as int);
    let mut j: usize = s.len();
    while j > i && is_whitespace(s[j - 1])
        invariant
            i <= j <= s.len(),
            t == s@.skip(i as int),
            forall|k: int| j <= k < s.len() ==> spec_is_whitespace(#[trigger] s@[k]),
        decreases j,
    {
        j = j - 1;
    }
    proof {
        assert forall|k: int| j - i <= k < t.len() implies spec_is_whitespace(#[trigger] t[k]) by {
            assert(t[k] == s@[k + i]);
        }
        lemma_trim_end(t, j - i);
    }
    let mut r: Vec<char> = Vec::new();
    let mut k: usize = i;
    while k < j
        invariant
            i <= k <= j <= s.len(),
            r@ == s@.subrange(i as int, k as int),
        decreases j - k,
    {
        r.push(s[k]);
        k = k + 1;
        assert(r@ =~= s@.subrange(i as int, k as int));
    }
    assert(r@ =~= t.take(j - i));
    r
}

/// Appends characters to the open token.
fn extend_open(tokens: &mut Vec<Vec<char>>, cs: &Vec<char>)
    requires
        old(tokens).len() > 0,
    ensures
        char_lists_view(final(tokens)@) == extend_last(char_lists_view(old(tokens)@), cs@),
        final(tokens).len() == old(tokens).len(),
        forall|k: int| 0 <= k < final(tokens).len() - 1 ==> (#[trigger] final(tokens)@[k]) == old(tokens)@[k],
        final(tokens)@.last()@.len() == old(tokens)@.last()@.len() + cs@.len(),
{
    let mut cur = tokens.pop().unwrap();
    let ghost start = cur@;
    let mut k: usize = 0;
    while k < cs.len()
        invariant
            k <= cs.len(),
            cur@ == start + cs@.take(k as int),
        decreases cs.len() - k,
    {
        cur.push(cs[k]);
        k = k + 1;
        assert(cur@ =~= start + cs@.take(k as int));
    }
    assert(cs@.take(cs.len() as int) == cs@);
    tokens.push(cur);
    assert(char_lists_view(tokens@) =~= extend_last(char_lists_view(old(tokens)@), cs@));
}

/// Runs the tokenizer over a trimmed line.
fn lex_chars(t: &Vec<char>) -> (r: Vec<Vec<char>>)
    ensures
        char_lists_view(r@) == lex(t@).tokens,
        r.len() > 0,
        forall|k: int| 0 <= k < r.len() - 1 ==> (#[trigger] r@[k])@.len() > 0,
{
    let mut tokens: Vec<Vec<char>> = Vec::new();
    tokens.push(Vec::new());
    let mut bracket = false;
    let mut escape = false;
    let mut i: usize = 0;
    assert(t@.take(0) =~= Seq::<char>::empty());
    assert(char_lists_view(tokens@) =~= seq![Seq::<char>::empty()]);
    while i < t.len()
        invariant
            i <= t.len(),
            tokens.len() > 0,
            lex(t@.take(i as int)) == (LexState {
                tokens: char_lists_view(tokens@),
                bracket,
                escape,
            }),
            forall|k: int| 0 <= k < tokens.len() - 1 ==> (#[trigger] tokens@[k])@.len() > 0,
        decreases t.len() - i,
    {
        let c = t[i];
        assert(t@.take(i + 1).drop_last() == t@.take(i as int));
        assert(t@.take(i + 1).last() == c);
        let ghost st = lex(t@.take(i as int));
        let empty = tokens[tokens.len() - 1].len() == 0;
        assert(empty == (st.tokens.last().len() == 0));
        if bracket {
            if c == '}' && !escape {
                bracket = false;
            } else if c == '/' && !escape {
                escape = true;
            } else {
                let mut one = Vec::new();
                one.push(c);
                extend_open(&mut tokens, &one);
                escape = false;
            }
        } else if c == '{' {
            bracket = true;
        } else if is_whitespace(c) {
            if !empty {
                tokens.push(Vec::new());
                assert(char_lists_view(tokens@) =~= st.tokens.push(Seq::empty()));
            }
        } else if !is_alphanumeric(c) && !(c == '_' || c == '@' || c == '$' || c == '\'' || c == ':') {
            if !empty {
                tokens.push(Vec::new());
                assert(char_lists_view(tokens@) =~= st.tokens.push(Seq::empty()));
            }
            let low = to_lowercase(c);
            extend_open(&mut tokens, &low);
            let ghost before = char_lists_view(tokens@);
            tokens.push(Vec::new());
            assert(char_lists_view(tokens@) =~= before.push(Seq::empty()));
        } else {
            let mut one = Vec::new();
            one.push(c);
            extend_open(&mut tokens, &one);
        }
        i = i + 1;
    }
    assert(t@.take(t.len() as int) == t@);
    tokens
}

/// Splits a line into tokens: see `tokenize`.
pub fn tokenize_line(line: &str) -> (r: Vec<String>)
    ensures
        strings_view(r@) == tokenize(line@),
        forall|k: int| 0 <= k < r.len() ==> (#[trigger] r@[k])@.len() > 0,
{
    let chars = chars_of(line);
    let t = trim_chars(&chars);
    let mut out: Vec<String> = Vec::new();
    if t.len() == 0 {
        assert(strings_view(out@) =~= Seq::<Seq<char>>::empty());
        return out;
    }
    let mut toks = lex_chars(&t);
    let last = toks.len() - 1;
    if toks[last].len() == 0 {
        let ghost before = char_lists_view(toks@);
        toks.pop();
        assert(char_lists_view(toks@) =~= before.drop_last());
    }
    let mut k: usize = 0;
    while k < toks.len()
        invariant
            k <= toks.len(),
            strings_view(out@) == char_lists_view(toks@).take(k as int),
            forall|j: int| 0 <= j < toks.len() ==> (#[trigger] toks@[j])@.len() > 0,
        decreases toks.len() - k,
    {
        let ghost before = strings_view(out@);
        let one = string_of(&toks[k]);
        out.push(one);
        assert(strings_view(out@) =~= before.push(toks@[k as int]@));
        assert(char_lists_view(toks@).take(k + 1) =~= char_lists_view(toks@).take(k as int).push(
            toks@[k as int]@,
        ));
        k = k + 1;
    }
    assert(char_lists_view(toks@).take(toks.len() as int) == char_lists_view(toks@));
    assert forall|j: int| 0 <= j < out.len() implies (#[trigger] out@[j])@.len() > 0 by {
        assert(strings_view(out@)[j] == out@[j]@);
        assert(char_lists_view(toks@)[j] == toks@[j]@);
    }
    out
}

/// Outputs lines, split into unprocessed tokens
pub struct Parser {
    lines: Vec<String>,
    next_line: usize,
}

impl Parser {
    /// A parser over the lines of a source file.
    pub fn new(lines: Vec<String>) -> (p: Self)
        ensures
            p.lines() == strings_view(lines@),
            p.position() == 0,
    {
        Self { lines, next_line: 0 }
    }

    /// The lines of the source.
    pub closed spec fn lines(&self) -> Seq<Seq<char>> {
        strings_view(self.lines@)
    }

    /// The number of lines already read.
    pub closed spec fn position(&self) -> nat {
        self.next_line as nat
    }

    /// The next line's number (from 0) and tokens; `None` after the last line.
    pub fn next(&mut self) -> (r: Option<(usize, Vec<String>)>)
        ensures
            final(self).lines() == old(self).lines(),
            old(self).position() >= old(self).lines().len() ==> r is None && final(self).position()
                == old(self).position(),
            old(self).position() < old(self).lines().len() ==> (r matches Some((n, toks)) && n
                == old(self).position() && strings_view(toks@) == tokenize(
                old(self).lines()[n as int],
            ) && final(self).position() == old(self).position() + 1),
            r matches Some((n, toks)) ==> forall|k: int| 0 <= k < toks.len() ==> (#[trigger] toks@[k])@.len() > 0,
    {
        if self.next_line >= self.lines.len() {
            return None;
        }
        let n = self.next_line;
        let toks = tokenize_line(self.lines[n].as_str());
        self.next_line = n + 1;
        Some((n, toks))
    }
}

} // verus!
