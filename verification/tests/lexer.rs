use lib::lexer::tokenizer::{deparse_token, find_ws_str, get_token, parse, parse_token, Operators, Tokens};

const RESERVED: &str = " +-*/=%;:,.({<[]>})&|!?\"'\\";

fn text(s: &str) -> Tokens {
    Tokens::Text(s.to_string())
}

#[test]
fn parse_token_reserved_characters() {
    assert_eq!(parse_token("+"), Tokens::Operator(Operators::Add));
    assert_eq!(parse_token("-"), Tokens::Operator(Operators::Sub));
    assert_eq!(parse_token("*"), Tokens::Operator(Operators::Mul));
    assert_eq!(parse_token("/"), Tokens::Operator(Operators::Div));
    assert_eq!(parse_token("="), Tokens::Operator(Operators::Equal));
    assert_eq!(parse_token("%"), Tokens::Operator(Operators::Mod));
    assert_eq!(parse_token("&"), Tokens::Ampersant);
    assert_eq!(parse_token("|"), Tokens::Pipe);
    assert_eq!(parse_token("!"), Tokens::Operator(Operators::Not));
    assert_eq!(parse_token("?"), Tokens::Optional);
    assert_eq!(parse_token(";"), Tokens::Semicolon);
    assert_eq!(parse_token(":"), Tokens::Colon);
    assert_eq!(parse_token(","), Tokens::Comma);
    assert_eq!(parse_token("."), Tokens::Dot);
    assert_eq!(parse_token("\""), Tokens::DoubleQuotes);
    assert_eq!(parse_token("'"), Tokens::Quotes);
    assert_eq!(parse_token("("), Tokens::Parenteses(false));
    assert_eq!(parse_token(")"), Tokens::Parenteses(true));
    assert_eq!(parse_token("{"), Tokens::CurlyBracket(false));
    assert_eq!(parse_token("}"), Tokens::CurlyBracket(true));
    assert_eq!(parse_token("<"), Tokens::AngleBracket(false));
    assert_eq!(parse_token(">"), Tokens::AngleBracket(true));
    assert_eq!(parse_token("["), Tokens::SquareBracket(false));
    assert_eq!(parse_token("]"), Tokens::SquareBracket(true));
    assert_eq!(parse_token(" "), Tokens::Space);
}

#[test]
fn parse_token_keeps_other_text() {
    assert_eq!(parse_token("\\"), text("\\"));
    assert_eq!(parse_token("++"), text("++"));
    assert_eq!(parse_token("hello"), text("hello"));
    assert_eq!(parse_token("\n"), text("\n"));
    assert_eq!(parse_token(""), text(""));
    assert_eq!(parse_token("ž"), text("ž"));
}

#[test]
fn deparse_token_writes_tokens() {
    assert_eq!(deparse_token(&Tokens::Operator(Operators::And)), "&&");
    assert_eq!(deparse_token(&Tokens::Operator(Operators::Or)), "||");
    assert_eq!(deparse_token(&Tokens::Operator(Operators::Add)), "+");
    assert_eq!(deparse_token(&Tokens::DoubleColon), "::");
    assert_eq!(deparse_token(&Tokens::Parenteses(true)), ")");
    assert_eq!(deparse_token(&Tokens::SquareBracket(false)), "[");
    assert_eq!(deparse_token(&text("abc")), "abc");
    assert_eq!(deparse_token(&Tokens::Tab), "");
    assert_eq!(deparse_token(&Tokens::Char('x')), "");
    assert_eq!(deparse_token(&Tokens::String("s".to_string())), "");
    assert_eq!(deparse_token(&Tokens::Operator(Operators::AddEq)), "");
}

#[test]
fn deparse_undoes_parse_token() {
    for s in ["+", "-", "*", "/", "=", "%", "&", "|", "!", "?", ";", ":", ",", ".", "\"", "'", "(", ")",
        "{", "}", "<", ">", "[", "]", " ", "\\", "&&", "word", "", "ünï"]
    {
        assert_eq!(deparse_token(&parse_token(s)), s);
    }
}

#[test]
fn parse_token_undoes_deparse_for_single_characters() {
    let ts = vec![
        Tokens::Operator(Operators::Mul),
        Tokens::Optional,
        Tokens::CurlyBracket(true),
        Tokens::AngleBracket(false),
        Tokens::Quotes,
        text("name"),
    ];
    for t in ts {
        assert_eq!(parse_token(&deparse_token(&t)), t);
    }
    // Text spelling a reserved character is read back as that character's token.
    assert_eq!(parse_token(&deparse_token(&text("+"))), Tokens::Operator(Operators::Add));
    // The two-character operators come back as text.
    assert_eq!(parse_token(&deparse_token(&Tokens::Operator(Operators::And))), text("&&"));
}

#[test]
fn find_ws_str_finds_first_stop() {
    assert_eq!(find_ws_str("ab cd", RESERVED), 2);
    assert_eq!(find_ws_str("abc+d", RESERVED), 3);
    assert_eq!(find_ws_str("abc", RESERVED), 3);
    assert_eq!(find_ws_str("", RESERVED), 0);
    assert_eq!(find_ws_str(";abc", RESERVED), 0);
    assert_eq!(find_ws_str("ab\tc", RESERVED), 2);
    assert_eq!(find_ws_str("abc", "x"), 3);
    assert_eq!(find_ws_str("abcxd", "yx"), 3);
    assert_eq!(find_ws_str("abc\nx", "x"), 3);
}

#[test]
fn find_ws_str_counts_bytes() {
    assert_eq!(find_ws_str("日本 語", RESERVED), 6);
    assert_eq!(find_ws_str("héllo", RESERVED), 6);
    // A multi-byte whitespace character is found too.
    assert_eq!(find_ws_str("ab\u{3000}c", RESERVED), 2);
    assert_eq!(find_ws_str("é\u{a0}", ""), 2);
}

#[test]
fn get_token_takes_first_token() {
    assert_eq!(get_token("let x"), (text("let"), 3));
    assert_eq!(get_token(" x"), (Tokens::Space, 1));
    assert_eq!(get_token("(a)"), (Tokens::Parenteses(false), 1));
    assert_eq!(get_token("\nrest"), (text("\n"), 1));
    assert_eq!(get_token("héllo wörld"), (text("héllo"), 6));
    assert_eq!(get_token("x"), (text("x"), 1));
    assert_eq!(get_token("\\n"), (text("\\"), 1));
}

#[test]
fn parse_cuts_text_into_tokens() {
    let (tokens, pos) = parse("let x = 5;\nfoo".to_string());
    assert_eq!(
        tokens,
        vec![
            text("let"),
            Tokens::Space,
            text("x"),
            Tokens::Space,
            Tokens::Operator(Operators::Equal),
            Tokens::Space,
            text("5"),
            Tokens::Semicolon,
            text("\n"),
            text("foo"),
        ]
    );
    assert_eq!(
        pos,
        vec![(0, 0), (3, 0), (4, 0), (5, 0), (6, 0), (7, 0), (8, 0), (9, 0), (10, 0), (0, 1), (3, 1)]
    );
}

#[test]
fn parse_empty_text() {
    let (tokens, pos) = parse(String::new());
    assert!(tokens.is_empty());
    assert_eq!(pos, vec![(0, 0)]);
}

#[test]
fn parse_counts_columns_in_bytes() {
    let (tokens, pos) = parse("é\n\nab".to_string());
    assert_eq!(tokens, vec![text("é"), text("\n"), text("\n"), text("ab")]);
    assert_eq!(pos, vec![(0, 0), (2, 0), (0, 1), (0, 2), (2, 2)]);
}

#[test]
fn parse_tokens_write_back_to_text() {
    let src = "fn main() { a += b[1]; /* c */ }\n\tx.y::z? \"q\" 'r'";
    let (tokens, _) = parse(src.to_string());
    let back: String = tokens.iter().map(|t| deparse_token(t)).collect();
    assert_eq!(back, src);
    for t in &tokens {
        assert_ne!(deparse_token(t), "");
    }
}

#[test]
fn parse_positions_count_lines_and_bytes() {
    let src = "ab cd\n  é;\n\nx y\n";
    let (tokens, pos) = parse(src.to_string());
    assert_eq!(pos.len(), tokens.len() + 1);
    let mut written = String::new();
    for k in 0..=tokens.len() {
        let lines = written.matches('\n').count();
        let col = match written.rfind('\n') {
            Some(i) => written.len() - i - 1,
            None => written.len(),
        };
        assert_eq!(pos[k], (col, lines));
        if k < tokens.len() {
            written.push_str(&deparse_token(&tokens[k]));
        }
    }
    assert_eq!(written, src);
}
