use elysabettian::token::{Token, TokenType};
use elysabettian::tokenizer::{tokenize, Tokenizer};

fn kinds(src: &str) -> Vec<TokenType> {
    tokenize(&src.to_string()).iter().map(|t| t.token_type).collect()
}

fn texts(src: &str) -> Vec<String> {
    tokenize(&src.to_string()).iter().map(|t| t.text.clone()).collect()
}

#[test]
fn token_new_copies_its_fields() {
    let text = String::from("abc");
    let t = Token::new(TokenType::Identifier, &text, 7);
    assert_eq!(t.token_type, TokenType::Identifier);
    assert_eq!(t.text, "abc");
    assert_eq!(t.line, 7);
}

#[test]
fn number_plus_number() {
    assert_eq!(
        kinds("1+2"),
        vec![TokenType::Number, TokenType::Plus, TokenType::Number, TokenType::Eof]
    );
    assert_eq!(texts("1+2"), vec!["1", "+", "2", ""]);
}

#[test]
fn variable_declaration() {
    assert_eq!(
        kinds("var x = 10;"),
        vec![
            TokenType::Var,
            TokenType::Identifier,
            TokenType::Equal,
            TokenType::Number,
            TokenType::Semicolon,
            TokenType::Eof
        ]
    );
    assert_eq!(texts("var x = 10;"), vec!["var", "x", "=", "10", ";", ""]);
}

#[test]
fn two_character_operators_are_greedy() {
    assert_eq!(kinds("<<"), vec![TokenType::LessLess, TokenType::Eof]);
    assert_eq!(kinds(">="), vec![TokenType::GreaterEqual, TokenType::Eof]);
    assert_eq!(kinds("&&"), vec![TokenType::And, TokenType::Eof]);
    assert_eq!(kinds("&"), vec![TokenType::BwAnd, TokenType::Eof]);
    assert_eq!(kinds("<="), vec![TokenType::LessEqual, TokenType::Eof]);
    assert_eq!(kinds(">>"), vec![TokenType::GreaterGreater, TokenType::Eof]);
    assert_eq!(kinds("<"), vec![TokenType::Less, TokenType::Eof]);
    assert_eq!(kinds(">"), vec![TokenType::Greater, TokenType::Eof]);
    assert_eq!(kinds("||"), vec![TokenType::Or, TokenType::Eof]);
    assert_eq!(kinds("|"), vec![TokenType::BwOr, TokenType::Eof]);
    assert_eq!(kinds("!="), vec![TokenType::ExclEqual, TokenType::Eof]);
    assert_eq!(kinds("!"), vec![TokenType::Excl, TokenType::Eof]);
    assert_eq!(kinds("=="), vec![TokenType::EqualEqual, TokenType::Eof]);
    assert_eq!(kinds("<<<"), vec![TokenType::LessLess, TokenType::Less, TokenType::Eof]);
    assert_eq!(kinds("<=="), vec![TokenType::LessEqual, TokenType::Equal, TokenType::Eof]);
}

#[test]
fn single_character_punctuation() {
    assert_eq!(
        kinds("()[]{},.-+;/*^~"),
        vec![
            TokenType::OpenParen,
            TokenType::CloseParen,
            TokenType::OpenSquare,
            TokenType::CloseSquare,
            TokenType::OpenCurly,
            TokenType::CloseCurly,
            TokenType::Comma,
            TokenType::Dot,
            TokenType::Minus,
            TokenType::Plus,
            TokenType::Semicolon,
            TokenType::Slash,
            TokenType::Star,
            TokenType::BwXor,
            TokenType::BwNot,
            TokenType::Eof
        ]
    );
}

#[test]
fn keyword_prefix_with_more_characters_is_identifier() {
    assert_eq!(kinds("classy"), vec![TokenType::Identifier, TokenType::Eof]);
    assert_eq!(texts("classy"), vec!["classy", ""]);
    assert_eq!(kinds("cla"), vec![TokenType::Identifier, TokenType::Eof]);
    assert_eq!(kinds("f"), vec![TokenType::Identifier, TokenType::Eof]);
    assert_eq!(kinds("t"), vec![TokenType::Identifier, TokenType::Eof]);
    assert_eq!(kinds("fx"), vec![TokenType::Identifier, TokenType::Eof]);
    assert_eq!(kinds("thus"), vec![TokenType::Identifier, TokenType::Eof]);
    assert_eq!(kinds("and or"), vec![TokenType::Identifier, TokenType::Identifier, TokenType::Eof]);
}

#[test]
fn every_keyword_is_recognized() {
    assert_eq!(
        kinds("class else false func for if null print return super this true var while"),
        vec![
            TokenType::Class,
            TokenType::Else,
            TokenType::False,
            TokenType::Func,
            TokenType::For,
            TokenType::If,
            TokenType::Null,
            TokenType::Print,
            TokenType::Return,
            TokenType::Super,
            TokenType::This,
            TokenType::True,
            TokenType::Var,
            TokenType::While,
            TokenType::Eof
        ]
    );
}

#[test]
fn identifiers_take_letters_digits_and_underscores() {
    assert_eq!(texts("_a1 b_2"), vec!["_a1", "b_2", ""]);
    assert_eq!(kinds("_a1 b_2"), vec![TokenType::Identifier, TokenType::Identifier, TokenType::Eof]);
}

#[test]
fn comment_is_skipped_and_line_counted() {
    let toks = tokenize(&"// hi\n1".to_string());
    assert_eq!(toks.len(), 2);
    assert_eq!(toks[0].token_type, TokenType::Number);
    assert_eq!(toks[0].text, "1");
    assert_eq!(toks[0].line, 2);
    assert_eq!(toks[1].token_type, TokenType::Eof);
}

#[test]
fn comment_at_end_of_input() {
    assert_eq!(kinds("1 // rest"), vec![TokenType::Number, TokenType::Eof]);
    assert_eq!(kinds("//"), vec![TokenType::Eof]);
}

#[test]
fn unterminated_string_gives_error_before_eof() {
    let toks = tokenize(&"\"abc".to_string());
    assert_eq!(toks.len(), 2);
    assert_eq!(toks[0].token_type, TokenType::Error);
    assert_eq!(toks[0].text, "Unterminated string literal!");
    assert_eq!(toks[0].line, 1);
    assert_eq!(toks[1].token_type, TokenType::Eof);
}

#[test]
fn unexpected_character_gives_error() {
    let toks = tokenize(&"1 @ 2".to_string());
    assert_eq!(
        toks.iter().map(|t| t.token_type).collect::<Vec<_>>(),
        vec![TokenType::Number, TokenType::Error, TokenType::Number, TokenType::Eof]
    );
    assert_eq!(toks[1].text, "Unexpected character!");
}

#[test]
fn strings_keep_their_delimiters() {
    assert_eq!(texts("\"a b\" 'c'"), vec!["\"a b\"", "'c'", ""]);
    assert_eq!(kinds("\"a b\" 'c'"), vec![TokenType::String, TokenType::String, TokenType::Eof]);
    assert_eq!(texts("'a\"b'"), vec!["'a\"b'", ""]);
}

#[test]
fn multi_line_string_records_its_last_line() {
    let toks = tokenize(&"\"a\nb\" x".to_string());
    assert_eq!(toks[0].token_type, TokenType::String);
    assert_eq!(toks[0].text, "\"a\nb\"");
    assert_eq!(toks[0].line, 2);
    assert_eq!(toks[1].line, 2);
}

#[test]
fn numbers_with_fraction() {
    assert_eq!(texts("3.14"), vec!["3.14", ""]);
    assert_eq!(kinds("3.14"), vec![TokenType::Number, TokenType::Eof]);
    assert_eq!(kinds("3."), vec![TokenType::Number, TokenType::Dot, TokenType::Eof]);
    assert_eq!(texts("1.2.3"), vec!["1.2", ".", "3", ""]);
    assert_eq!(kinds("-5"), vec![TokenType::Minus, TokenType::Number, TokenType::Eof]);
    assert_eq!(texts("12ab"), vec!["12", "ab", ""]);
}

#[test]
fn empty_source_is_only_eof() {
    let toks = tokenize(&String::new());
    assert_eq!(toks.len(), 1);
    assert_eq!(toks[0].token_type, TokenType::Eof);
    assert_eq!(toks[0].text, "");
    assert_eq!(toks[0].line, 1);
    assert_eq!(kinds(" \t\r\n "), vec![TokenType::Eof]);
}

#[test]
fn eof_repeats_after_end() {
    let mut scanner = Tokenizer::new(&"x".to_string());
    assert_eq!(scanner.get_token().token_type, TokenType::Identifier);
    assert_eq!(scanner.get_token().token_type, TokenType::Eof);
    assert_eq!(scanner.get_token().token_type, TokenType::Eof);
}

#[test]
fn lines_are_counted_across_newlines() {
    let toks = tokenize(&"a\n\nb\r\nc".to_string());
    assert_eq!(toks.iter().map(|t| t.line).collect::<Vec<_>>(), vec![1, 3, 4, 4]);
}

#[test]
fn tokens_cover_the_source_in_order() {
    let src = "var x = 10; // note\nprint x <= 3.5;";
    let toks = tokenize(&src.to_string());
    // Concatenating the lexemes gives the source without blank space and comments.
    let joined: String = toks.iter().map(|t| t.text.as_str()).collect();
    assert_eq!(joined, "varx=10;printx<=3.5;");
    let last = toks.last().unwrap();
    assert_eq!(last.token_type, TokenType::Eof);
    assert_eq!(last.text, "");
    assert_eq!(toks.iter().filter(|t| t.token_type == TokenType::Eof).count(), 1);
}

#[test]
fn two_scanners_over_one_source_agree() {
    let src = "class A { func f() { return \"s\" >> 2; } }\n'open".to_string();
    let a = tokenize(&src);
    let b = tokenize(&src);
    assert_eq!(a, b);
    let mut s1 = Tokenizer::new(&src);
    let mut s2 = Tokenizer::new(&src);
    loop {
        let t1 = s1.get_token();
        let t2 = s2.get_token();
        assert_eq!(t1, t2);
        if t1.token_type == TokenType::Eof {
            break;
        }
    }
}
