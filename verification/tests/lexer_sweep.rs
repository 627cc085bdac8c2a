use styx::{TokenStream, TokenType};

/// The token grammar once more, written over `std`'s peekable iterator: a
/// second reading to hold the library against, on texts of ASCII characters.
fn expected_tokens(source: &str) -> Vec<(TokenType, &str)> {
    let mut out = Vec::new();
    let mut chars = source.chars();
    loop {
        let rest = chars.as_str();
        let c = match chars.next() {
            Some(c) => c,
            None => break,
        };
        let mut peekable = chars.clone().peekable();
        let mut ct = 1;
        let kind = match c {
            '{' => TokenType::LCurly,
            '}' => TokenType::RCurly,
            '(' => TokenType::LParen,
            ')' => TokenType::RParen,
            ':' => TokenType::Colon,
            '0'..='9' => {
                while peekable.next_if(|c| matches!(c, '0'..='9' | '_')).is_some() {
                    chars.next();
                    ct += 1;
                }
                if let Some('.') = peekable.peek() {
                    ct += 1;
                    peekable.next();
                    chars.next();
                }
                while peekable.next_if(|c| matches!(c, '0'..='9' | '_')).is_some() {
                    ct += 1;
                    chars.next();
                }
                TokenType::LitNum
            }
            '"' => {
                while peekable.next_if(|c| !matches!(c, '"')).is_some() {
                    ct += 1;
                    chars.next();
                }
                if peekable.next_if(|it| matches!(it, '"')).is_some() {
                    chars.next();
                    ct += 1;
                    TokenType::LitStr
                } else {
                    TokenType::Unknown
                }
            }
            'a'..='z' | 'A'..='Z' => {
                while peekable
                    .next_if(|c| matches!(c, 'a'..='z' | 'A'..='Z' | '_'))
                    .is_some()
                {
                    chars.next();
                    ct += 1;
                }
                match &rest[..ct] {
                    "fn" => TokenType::KFn,
                    "let" => TokenType::KLet,
                    "return" => TokenType::KRet,
                    _ => TokenType::LitId,
                }
            }
            ',' | '\n' | ' ' | '\t' | '\r' => {
                while peekable.next_if(|c| matches!(c, ' ' | '\t' | '\r')).is_some() {
                    ct += 1;
                    chars.next();
                }
                if matches!(c, ',' | '\n') {
                    TokenType::Comma
                } else {
                    TokenType::Sep
                }
            }
            _ => TokenType::Unknown,
        };
        out.push((kind, &rest[..ct]));
    }
    out
}

fn read(source: &str) -> Vec<(TokenType, &str)> {
    TokenStream::new(source).collect().into_iter().map(|t| (t.kind, t.source)).collect()
}

#[test]
fn every_short_text_reads_the_same_both_ways() {
    let alphabet: Vec<char> = "{}():09_.\"azAZfnletur ,\n\t\r=x".chars().collect();
    let mut seed: u64 = 0x2545_f491_4f6c_dd1d;
    let mut text = String::new();
    for round in 0..4000 {
        text.clear();
        let len = round % 14;
        for _ in 0..len {
            seed ^= seed << 13;
            seed ^= seed >> 7;
            seed ^= seed << 17;
            text.push(alphabet[(seed % alphabet.len() as u64) as usize]);
        }
        assert_eq!(read(&text), expected_tokens(&text), "on {:?}", text);
    }
}

#[test]
fn keywords_and_their_neighbours_read_the_same_both_ways() {
    for text in [
        "fn", "fn ", "fnn", "f", "let", "le", "lett", "return", "retur", "returns", "fn_", "_fn",
        "fn(let:return)", "let x: i = 5,\nreturn x\n", "\"fn\" fn \"let", "1.fn", "fn.1", "9_9.9_9",
        "let\tx\r\n", ",\n,\n", " , ", "\r\n\t", "a\"b\"c\"", "{{}}(())::", "0.", "0..", "0.0.0",
    ] {
        assert_eq!(read(text), expected_tokens(text), "on {:?}", text);
    }
}
