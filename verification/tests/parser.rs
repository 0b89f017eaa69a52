use x80::parser::{tokenize_line, Parser};

fn toks(v: &[&str]) -> Vec<String> {
    v.iter().map(|s| s.to_string()).collect()
}

#[test]
fn splits_words_and_punctuation() {
    assert_eq!(tokenize_line("  ld a, 80  "), toks(&["ld", "a", ",", "80"]));
    assert_eq!(tokenize_line("ld (ix+5), 3"), toks(&["ld", "(", "ix", "+", "5", ")", ",", "3"]));
}

#[test]
fn keeps_word_punctuation_inside_words() {
    assert_eq!(tokenize_line("start:"), toks(&["start:"]));
    assert_eq!(tokenize_line("jp @@loop"), toks(&["jp", "@@loop"]));
    assert_eq!(tokenize_line("ld a, 'x' $"), toks(&["ld", "a", ",", "'x'", "$"]));
}

#[test]
fn lower_cases_punctuation_only() {
    assert_eq!(tokenize_line("LD A,B"), toks(&["LD", "A", ",", "B"]));
}

#[test]
fn brackets_keep_their_content() {
    assert_eq!(tokenize_line("ld hl, {@text + @text_offset}"), toks(&["ld", "hl", ",", "@text + @text_offset"]));
    assert_eq!(tokenize_line("@string {hello, world!}"), toks(&["@string", "hello, world!"]));
}

#[test]
fn slash_escapes_inside_brackets() {
    assert_eq!(tokenize_line("@string {a/}b}"), toks(&["@string", "a}b"]));
    assert_eq!(tokenize_line("@string {a//b}"), toks(&["@string", "a/b"]));
    assert_eq!(tokenize_line(r"@string {a\b}"), toks(&["@string", r"a\b"]));
}

#[test]
fn blank_lines_have_no_tokens() {
    assert_eq!(tokenize_line(""), Vec::<String>::new());
    assert_eq!(tokenize_line("   \t "), Vec::<String>::new());
    assert_eq!(tokenize_line("{}"), Vec::<String>::new());
}

#[test]
fn comments_start_with_at_and_space() {
    let t = tokenize_line("@ loads a with decimal 80");
    assert_eq!(t[0], "@");
    let t = tokenize_line("  ld a, 80        @ loads a");
    assert_eq!(t, toks(&["ld", "a", ",", "80", "@", "loads", "a"]));
}

#[test]
fn no_token_is_empty() {
    for line in ["a {} b", "{}(", "x ,, y", "  {  } ", "@ {"] {
        for t in tokenize_line(line) {
            assert!(!t.is_empty());
        }
    }
}

#[test]
fn parser_numbers_lines() {
    let mut p = Parser::new(vec!["nop".to_string(), "".to_string(), "ret  @ done".to_string()]);
    assert_eq!(p.next(), Some((0, toks(&["nop"]))));
    assert_eq!(p.next(), Some((1, Vec::new())));
    assert_eq!(p.next(), Some((2, toks(&["ret", "@", "done"]))));
    assert_eq!(p.next(), None);
    assert_eq!(p.next(), None);
}

#[test]
fn whitespace_is_the_unicode_white_space_set() {
    for u in 0u32..0x3100 {
        if let Some(c) = char::from_u32(u) {
            let t = tokenize_line(&format!("a{}b", c));
            assert_eq!(t == toks(&["a", "b"]), c.is_whitespace(), "char {:#x}", u);
        }
    }
}
