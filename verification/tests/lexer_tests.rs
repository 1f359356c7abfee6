use dotfiles::lexer::{Lexer, Token};

fn lex(input: &str) -> Vec<Token> {
    let mut lexer = Lexer::new(input.to_string());
    lexer.lex();
    lexer.tokens
}

fn show(tokens: &[Token]) -> String {
    format!("{:?}", tokens)
}

#[test]
fn new_lexer_has_no_tokens() {
    let lexer = Lexer::new("\"a\"".to_string());
    assert!(lexer.tokens.is_empty());
}

#[test]
fn empty_input_gives_no_tokens() {
    assert!(lex("").is_empty());
    assert!(lex("   ").is_empty());
}

#[test]
fn string_literal_with_escapes() {
    let tokens = lex("\"a\\\"b\\\\c\\nd\\x\"");
    assert_eq!(tokens.len(), 1);
    match &tokens[0] {
        Token::StringLit(s) => assert_eq!(s, "a\"b\\c\ndx"),
        _ => panic!("expected a string literal"),
    }
}

#[test]
fn string_literal_roundtrip() {
    // quote(escape(c)) lexes back to c
    let content = "say \"hi\"\\\nbye";
    let mut quoted = String::from("\"");
    for c in content.chars() {
        match c {
            '\\' => quoted.push_str("\\\\"),
            '"' => quoted.push_str("\\\""),
            '\n' => quoted.push_str("\\n"),
            c => quoted.push(c),
        }
    }
    quoted.push('"');
    let tokens = lex(&quoted);
    assert_eq!(tokens.len(), 1);
    match &tokens[0] {
        Token::StringLit(s) => assert_eq!(s, content),
        _ => panic!("expected a string literal"),
    }
}

#[test]
fn unterminated_literal_runs_to_end() {
    let tokens = lex("\"abc");
    assert_eq!(show(&tokens), "[StringLit(\"abc\")]");
    let tokens = lex("\"abc\\");
    assert_eq!(show(&tokens), "[StringLit(\"abc\")]");
}

#[test]
fn comment_takes_its_line_break() {
    let tokens = lex("# note\n\n");
    assert_eq!(show(&tokens), "[Comment(\" note\"), Newline]");
    let tokens = lex("#end");
    assert_eq!(show(&tokens), "[Comment(\"end\")]");
}

#[test]
fn errors_give_byte_offsets() {
    // 'é' takes two bytes, so the 'x' after it starts at byte 3
    let tokens = lex("aé x\n");
    assert_eq!(show(&tokens), "[Error(0), Error(1), Error(4), Newline]");
}

#[test]
fn mixed_line() {
    let tokens = lex("\"a b\" # c\n\"d\"");
    assert_eq!(
        show(&tokens),
        "[StringLit(\"a b\"), Comment(\" c\"), StringLit(\"d\")]"
    );
}

#[test]
fn process_string_lit_moves_past_quote() {
    let chars: Vec<char> = "ab\"cd".chars().collect();
    let mut pos = 0usize;
    let tok = Lexer::process_string_lit(&chars, &mut pos);
    assert_eq!(pos, 3);
    assert_eq!(format!("{:?}", tok), "StringLit(\"ab\")");
}

#[test]
fn process_comment_moves_past_newline() {
    let chars: Vec<char> = "#x y\nz".chars().collect();
    let mut pos = 1usize;
    let tok = Lexer::process_comment(&chars, &mut pos);
    assert_eq!(pos, 5);
    assert_eq!(format!("{:?}", tok), "Comment(\"x y\")");
}

#[test]
fn lexing_twice_gives_the_same_tokens() {
    let mut lexer = Lexer::new("x \"a\" # c\n é".to_string());
    lexer.lex();
    let first = show(&lexer.tokens);
    lexer.lex();
    assert_eq!(show(&lexer.tokens), first);
    assert_eq!(lexer.input, "x \"a\" # c\n é");
}

#[test]
fn lexing_a_concatenation() {
    // the first part ends with a line break and holds no quote
    let s1 = "é # c\nx\n";
    let s2 = "y \"z\" w";
    let whole = lex(&format!("{}{}", s1, s2));
    let mut expect = lex(s1);
    for t in lex(s2) {
        expect.push(match t {
            Token::Error(i) => Token::Error(i + s1.len()),
            other => other,
        });
    }
    assert_eq!(show(&whole), show(&expect));
}
