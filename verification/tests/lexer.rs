use styx::{lex, parse, Token, TokenStream, TokenType};

fn kinds(source: &str) -> Vec<TokenType> {
    TokenStream::new(source).collect().into_iter().map(|t| t.kind).collect()
}

fn texts(source: &str) -> Vec<&str> {
    TokenStream::new(source).collect().into_iter().map(|t| t.source).collect()
}

#[test]
fn test() {
    println!("{:?}", TokenStream::new("{ }").collect());
    println!(
        "{:?}",
        TokenStream::new(
            "fn main() {
            print(23.14)
        }
        "
        )
        .collect()
    );
}

#[test]
fn int_lits() {
    assert_eq!(
        lex("12"),
        vec![TokenType::LitNum.on("12"), TokenType::EOF.on("")]
    );
    assert_eq!(
        lex("23.14"),
        vec![TokenType::LitNum.on("23.14"), TokenType::EOF.on("")]
    );
    assert_eq!(
        lex("23."),
        vec![TokenType::LitNum.on("23."), TokenType::EOF.on("")]
    );
    // I think we're not using .12
    assert_eq!(
        lex(".12"),
        vec![
            TokenType::Unknown.on("."),
            TokenType::LitNum.on("12"),
            TokenType::EOF.on("")
        ]
    );
    assert_eq!(
        lex("."),
        vec![TokenType::Unknown.on("."), TokenType::EOF.on("")]
    );
}

#[test]
fn a_function_is_read_token_by_token() {
    let source = "fn main() {\n    print(23.14)\n}\n";
    assert_eq!(
        kinds(source),
        vec![
            TokenType::KFn,
            TokenType::Sep,
            TokenType::LitId,
            TokenType::LParen,
            TokenType::RParen,
            TokenType::Sep,
            TokenType::LCurly,
            TokenType::Comma,
            TokenType::LitId,
            TokenType::LParen,
            TokenType::LitNum,
            TokenType::RParen,
            TokenType::Comma,
            TokenType::RCurly,
            TokenType::Comma,
        ]
    );
    assert_eq!(
        texts(source),
        vec![
            "fn", " ", "main", "(", ")", " ", "{", "\n    ", "print", "(", "23.14", ")", "\n", "}",
            "\n"
        ]
    );
    assert_eq!(texts(source).concat(), source);
}

#[test]
fn keywords_are_whole_words() {
    assert_eq!(kinds("fn"), vec![TokenType::KFn]);
    assert_eq!(kinds("let"), vec![TokenType::KLet]);
    assert_eq!(kinds("return"), vec![TokenType::KRet]);
    assert_eq!(kinds("fnx"), vec![TokenType::LitId]);
    assert_eq!(kinds("lets"), vec![TokenType::LitId]);
    assert_eq!(kinds("Return"), vec![TokenType::LitId]);
    assert_eq!(kinds("f"), vec![TokenType::LitId]);
    assert_eq!(kinds("a_b"), vec![TokenType::LitId]);
    assert_eq!(texts("a_b1"), vec!["a_b", "1"]);
    assert_eq!(kinds("_a"), vec![TokenType::Unknown, TokenType::LitId]);
    assert_eq!(kinds("match"), vec![TokenType::LitId]);
}

#[test]
fn numbers_take_digits_underscores_and_one_dot() {
    assert_eq!(texts("1_000.5_0.2"), vec!["1_000.5_0", ".", "2"]);
    assert_eq!(
        kinds("1_000.5_0.2"),
        vec![TokenType::LitNum, TokenType::Unknown, TokenType::LitNum]
    );
    assert_eq!(texts("7x"), vec!["7", "x"]);
    assert_eq!(texts("1..2"), vec!["1.", ".", "2"]);
}

#[test]
fn strings_need_their_closing_quote() {
    assert_eq!(lex("\"ab\""), vec![TokenType::LitStr.on("\"ab\""), TokenType::EOF.on("")]);
    assert_eq!(lex("\"\""), vec![TokenType::LitStr.on("\"\""), TokenType::EOF.on("")]);
    assert_eq!(lex("\"ab"), vec![TokenType::Unknown.on("\"ab"), TokenType::EOF.on("")]);
    assert_eq!(lex("\""), vec![TokenType::Unknown.on("\""), TokenType::EOF.on("")]);
    assert_eq!(texts("\"a b\"c"), vec!["\"a b\"", "c"]);
    assert_eq!(texts("\"h\u{e9}\" x"), vec!["\"h\u{e9}\"", " ", "x"]);
}

#[test]
fn commas_and_line_breaks_end_a_statement() {
    assert_eq!(kinds(", "), vec![TokenType::Comma]);
    assert_eq!(texts(", \t\r"), vec![", \t\r"]);
    assert_eq!(kinds("\n\n"), vec![TokenType::Comma, TokenType::Comma]);
    assert_eq!(kinds(" \n"), vec![TokenType::Sep, TokenType::Comma]);
    assert_eq!(kinds(" ,"), vec![TokenType::Sep, TokenType::Comma]);
    assert_eq!(kinds("\t \r"), vec![TokenType::Sep]);
    assert_eq!(kinds(",,"), vec![TokenType::Comma, TokenType::Comma]);
}

#[test]
fn single_characters() {
    assert_eq!(
        kinds("{}():"),
        vec![
            TokenType::LCurly,
            TokenType::RCurly,
            TokenType::LParen,
            TokenType::RParen,
            TokenType::Colon
        ]
    );
    assert_eq!(kinds("=+-"), vec![TokenType::Unknown, TokenType::Unknown, TokenType::Unknown]);
    assert_eq!(texts("\u{e9}\u{4e16}a"), vec!["\u{e9}", "\u{4e16}", "a"]);
    assert_eq!(kinds("\u{e9}"), vec![TokenType::Unknown]);
}

#[test]
fn the_stream_is_read_one_token_at_a_time() {
    let mut stream = TokenStream::new("let x");
    assert_eq!(stream.next(), Some(Token { kind: TokenType::KLet, source: "let" }));
    assert_eq!(stream.next(), Some(TokenType::Sep.on(" ")));
    assert_eq!(stream.next(), Some(TokenType::LitId.on("x")));
    assert_eq!(stream.next(), None);
    assert_eq!(stream.next(), None);
    assert_eq!(lex(""), vec![TokenType::EOF.on("")]);
    assert!(TokenStream::new("").collect().is_empty());
    parse(TokenStream::new("fn main() { }"));
}
