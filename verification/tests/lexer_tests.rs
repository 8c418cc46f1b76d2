use kdl_query::lexer::{tokenize, Lexer, Spanned, TokenType};
use kdl_query::parser::token_text;

#[test]
fn text() {
    let mut lexer = Lexer::from("\"hello\"");
    assert_eq!(lexer.next(), Some(TokenType::String("\"hello\"")));
    assert_eq!(lexer.next(), None);
}
#[test]
fn spaced_text() {
    let mut lexer = Lexer::from("   \"hello\"  ");
    assert_eq!(lexer.next(), Some(TokenType::String("\"hello\"")));
    assert_eq!(lexer.next(), None);
}
#[test]
fn wrong_text() {
    let mut lexer = Lexer::from("\"hello");
    assert_eq!(lexer.next(), Some(TokenType::String("\"hello")));
    assert_eq!(lexer.next(), None);
}
#[test]
fn text_escaped() {
    let mut lexer = Lexer::from(r#""hello\"world""#);
    assert_eq!(lexer.next(), Some(TokenType::String(r#""hello\"world""#)));
    assert_eq!(lexer.next(), None);
}
#[test]
fn multiple_text() {
    let mut lexer = Lexer::from(r#""hello" "world""#);
    assert_eq!(lexer.next(), Some(TokenType::String(r#""hello""#)));
    assert_eq!(lexer.next(), Some(TokenType::String(r#""world""#)));
    assert_eq!(lexer.next(), None);
}
#[test]
fn alpha() {
    let mut lexer = Lexer::from("abc");
    assert_eq!(lexer.next(), Some(TokenType::Alphanumeric("abc")));
    assert_eq!(lexer.next(), None);
}
#[test]
fn alphanumeric() {
    let mut lexer = Lexer::from("abc123");
    assert_eq!(lexer.next(), Some(TokenType::Alphanumeric("abc123")));
    assert_eq!(lexer.next(), None);
}
#[test]
fn numeric() {
    let mut lexer = Lexer::from("123");
    assert_eq!(lexer.next(), Some(TokenType::Alphanumeric("123")));
    assert_eq!(lexer.next(), None);
}
#[test]
fn numalpha() {
    let mut lexer = Lexer::from("123abc");
    assert_eq!(lexer.next(), Some(TokenType::Alphanumeric("123abc")));
    assert_eq!(lexer.next(), None);
}
#[test]
fn multiple_alpha() {
    let mut lexer = Lexer::from("abc def ghijk");
    assert_eq!(lexer.next(), Some(TokenType::Alphanumeric("abc")));
    assert_eq!(lexer.next(), Some(TokenType::Alphanumeric("def")));
    assert_eq!(lexer.next(), Some(TokenType::Alphanumeric("ghijk")));
    assert_eq!(lexer.next(), None);
}
#[test]
fn multiple_numeric() {
    let mut lexer = Lexer::from("123 456 10938");
    assert_eq!(lexer.next(), Some(TokenType::Alphanumeric("123")));
    assert_eq!(lexer.next(), Some(TokenType::Alphanumeric("456")));
    assert_eq!(lexer.next(), Some(TokenType::Alphanumeric("10938")));
    assert_eq!(lexer.next(), None);
}
#[test]
fn multiple_alphanumeric() {
    let mut lexer = Lexer::from("abc 4476 ghijk 73ab35");
    assert_eq!(lexer.next(), Some(TokenType::Alphanumeric("abc")));
    assert_eq!(lexer.next(), Some(TokenType::Alphanumeric("4476")));
    assert_eq!(lexer.next(), Some(TokenType::Alphanumeric("ghijk")));
    assert_eq!(lexer.next(), Some(TokenType::Alphanumeric("73ab35")));
    assert_eq!(lexer.next(), None);
}

#[test]
fn token_sqbrackets() {
    let mut lexer = Lexer::from("[]");
    assert_eq!(lexer.next(), Some(TokenType::EnterSquareBracket));
    assert_eq!(lexer.next(), Some(TokenType::LeaveSquareBracket));
    assert_eq!(lexer.next(), None);
}
#[test]
fn token_relatives() {
    let mut lexer = Lexer::from("/./..//*");
    assert_eq!(lexer.next(), Some(TokenType::Slash));
    assert_eq!(lexer.next(), Some(TokenType::Point));
    assert_eq!(lexer.next(), Some(TokenType::Slash));
    assert_eq!(lexer.next(), Some(TokenType::DoublePoint));
    assert_eq!(lexer.next(), Some(TokenType::DoubleSlash));
    assert_eq!(lexer.next(), Some(TokenType::Star));
    assert_eq!(lexer.next(), None);
}

#[test]
fn entries() {
    let mut lexer = Lexer::from(r#"[name=value 1 "2" name1 = value1 | name = value1]"#);
    assert_eq!(lexer.next(), Some(TokenType::EnterSquareBracket));
    assert_eq!(lexer.next(), Some(TokenType::Alphanumeric("name")));
    assert_eq!(lexer.next(), Some(TokenType::Equal));
    assert_eq!(lexer.next(), Some(TokenType::Alphanumeric("value")));
    assert_eq!(lexer.next(), Some(TokenType::Alphanumeric("1")));
    assert_eq!(lexer.next(), Some(TokenType::String(r#""2""#)));
    assert_eq!(lexer.next(), Some(TokenType::Alphanumeric("name1")));
    assert_eq!(lexer.next(), Some(TokenType::Equal));
    assert_eq!(lexer.next(), Some(TokenType::Alphanumeric("value1")));
    assert_eq!(lexer.next(), Some(TokenType::Pipe));
    assert_eq!(lexer.next(), Some(TokenType::Alphanumeric("name")));
    assert_eq!(lexer.next(), Some(TokenType::Equal));
    assert_eq!(lexer.next(), Some(TokenType::Alphanumeric("value1")));
    assert_eq!(lexer.next(), Some(TokenType::LeaveSquareBracket));
    assert_eq!(lexer.next(), None);
}

#[test]
fn unknown_characters_become_tokens_of_their_own() {
    let mut lexer = Lexer::from("a-b?");
    assert_eq!(lexer.next(), Some(TokenType::Alphanumeric("a")));
    assert_eq!(lexer.next(), Some(TokenType::Unknown("-")));
    assert_eq!(lexer.next(), Some(TokenType::Alphanumeric("b")));
    assert_eq!(lexer.next(), Some(TokenType::Unknown("?")));
    assert_eq!(lexer.next(), None);
}

#[test]
fn underscore_and_point_end_an_alphanumeric_token() {
    let mut lexer = Lexer::from("ab_cd.ef");
    assert_eq!(lexer.next(), Some(TokenType::Alphanumeric("ab")));
    assert_eq!(lexer.next(), Some(TokenType::Unknown("_")));
    assert_eq!(lexer.next(), Some(TokenType::Alphanumeric("cd")));
    assert_eq!(lexer.next(), Some(TokenType::Point));
    assert_eq!(lexer.next(), Some(TokenType::Alphanumeric("ef")));
    assert_eq!(lexer.next(), None);
}

#[test]
fn characters_of_several_bytes_are_kept_whole() {
    let mut lexer = Lexer::from("\u{00e9}t\u{00e9} \u{2028}\u{00a7}'\u{732b}'");
    assert_eq!(lexer.next(), Some(TokenType::Alphanumeric("\u{00e9}t\u{00e9}")));
    assert_eq!(lexer.next(), Some(TokenType::Unknown("\u{00a7}")));
    assert_eq!(lexer.next(), Some(TokenType::String("'\u{732b}'")));
    assert_eq!(lexer.next(), None);
    assert_eq!(lexer.input, "");
}

#[test]
fn single_quotes_close_on_single_quotes_only() {
    let mut lexer = Lexer::from(r#"'a"b' "c'd""#);
    assert_eq!(lexer.next(), Some(TokenType::String(r#"'a"b'"#)));
    assert_eq!(lexer.next(), Some(TokenType::String(r#""c'd""#)));
    assert_eq!(lexer.next(), None);
}

#[test]
fn escaped_backslash_does_not_escape_the_quote() {
    let mut lexer = Lexer::from(r#""a\\" b"#);
    assert_eq!(lexer.next(), Some(TokenType::String(r#""a\\""#)));
    assert_eq!(lexer.next(), Some(TokenType::Alphanumeric("b")));
    assert_eq!(lexer.next(), None);
}

#[test]
fn trailing_backslash_ends_with_the_input() {
    let mut lexer = Lexer::from(r#""a\"#);
    assert_eq!(lexer.next(), Some(TokenType::String(r#""a\"#)));
    assert_eq!(lexer.next(), None);
}

#[test]
fn double_symbols_take_two_characters_at_most() {
    let mut lexer = Lexer::from("///....");
    assert_eq!(lexer.next(), Some(TokenType::DoubleSlash));
    assert_eq!(lexer.next(), Some(TokenType::Slash));
    assert_eq!(lexer.next(), Some(TokenType::DoublePoint));
    assert_eq!(lexer.next(), Some(TokenType::DoublePoint));
    assert_eq!(lexer.next(), None);
}

#[test]
fn symbols_one_by_one() {
    let mut lexer = Lexer::from("*=|");
    assert_eq!(lexer.next(), Some(TokenType::Star));
    assert_eq!(lexer.next(), Some(TokenType::Equal));
    assert_eq!(lexer.next(), Some(TokenType::Pipe));
    assert_eq!(lexer.next(), None);
}

#[test]
fn empty_input_has_no_token() {
    let mut lexer = Lexer::from("");
    assert_eq!(lexer.next(), None);
    assert_eq!(lexer.next(), None);
}

#[test]
fn get_text_takes_the_first_character_as_the_quote() {
    let mut lexer = Lexer::from("xabxcd");
    assert_eq!(lexer.get_text(), Some(TokenType::String("xabx")));
    assert_eq!(lexer.input, "cd");
}

#[test]
fn get_alphanumeric_may_read_nothing() {
    let mut lexer = Lexer::from("/a");
    assert_eq!(lexer.get_alphanumeric(), Some(TokenType::Alphanumeric("")));
    assert_eq!(lexer.input, "/a");
}

#[test]
fn get_token_reads_one_symbol() {
    let mut lexer = Lexer::from("a/");
    assert_eq!(lexer.get_token(), Some(TokenType::Unknown("a")));
    assert_eq!(lexer.get_token(), Some(TokenType::Slash));
    assert_eq!(lexer.get_token(), None);
}

#[test]
fn advance_and_return_splits_at_the_byte_offset() {
    let mut lexer = Lexer::from("\u{00e9}b");
    assert_eq!(lexer.advance_and_return(2), Some("\u{00e9}"));
    assert_eq!(lexer.input, "b");
    assert_eq!(lexer.advance_and_return(0), Some(""));
    assert_eq!(lexer.advance_and_return(1), Some("b"));
    assert_eq!(lexer.input, "");
}

#[test]
fn tokenize_gives_byte_offsets() {
    let tokens = tokenize("  \u{00e9} //\t'x' ?");
    assert_eq!(
        tokens,
        vec![
            Spanned { token: TokenType::Alphanumeric("\u{00e9}"), position: 2 },
            Spanned { token: TokenType::DoubleSlash, position: 5 },
            Spanned { token: TokenType::String("'x'"), position: 8 },
            Spanned { token: TokenType::Unknown("?"), position: 12 },
        ]
    );
}

#[test]
fn token_lengths_in_bytes() {
    assert_eq!(TokenType::DoubleSlash.byte_len(), 2);
    assert_eq!(TokenType::DoublePoint.byte_len(), 2);
    assert_eq!(TokenType::Pipe.byte_len(), 1);
    assert_eq!(TokenType::Alphanumeric("\u{00e9}t").byte_len(), 3);
}

#[test]
fn tokens_and_skipped_whitespace_give_the_input_again() {
    let input = " \t/a [ 'b c'=\u{00e9}|\n..  ";
    let tokens = tokenize(input);
    let mut rebuilt = String::new();
    let mut at = 0;
    for spanned in &tokens {
        let gap = &input[at..spanned.position];
        assert!(gap.chars().all(|c| c.is_whitespace()));
        rebuilt.push_str(gap);
        let text = token_text(&spanned.token);
        rebuilt.push_str(&text);
        at = spanned.position + text.len();
    }
    assert!(input[at..].chars().all(|c| c.is_whitespace()));
    rebuilt.push_str(&input[at..]);
    assert_eq!(rebuilt, input);
    assert_eq!(tokens.len(), 8);
}

#[test]
fn unicode_whitespace_is_skipped() {
    let input = "a\u{85}\u{a0}\u{1680}\u{2000}\u{200a}\u{2028}\u{2029}\u{202f}\u{205f}\u{3000}\u{b}\u{c}b";
    let mut lexer = Lexer::from(input);
    assert_eq!(lexer.next(), Some(TokenType::Alphanumeric("a")));
    assert_eq!(lexer.next(), Some(TokenType::Alphanumeric("b")));
    assert_eq!(lexer.next(), None);
}

#[test]
fn zero_width_space_is_no_whitespace() {
    let mut lexer = Lexer::from("a\u{200b}\u{180e}\u{8}b");
    assert_eq!(lexer.next(), Some(TokenType::Alphanumeric("a")));
    assert_eq!(lexer.next(), Some(TokenType::Unknown("\u{200b}")));
    assert_eq!(lexer.next(), Some(TokenType::Unknown("\u{180e}")));
    assert_eq!(lexer.next(), Some(TokenType::Unknown("\u{8}")));
    assert_eq!(lexer.next(), Some(TokenType::Alphanumeric("b")));
    assert_eq!(lexer.next(), None);
}

#[test]
fn ascii_letters_and_digits_are_alphanumeric() {
    let mut lexer = Lexer::from("@AZ[`az{09:");
    assert_eq!(lexer.next(), Some(TokenType::Unknown("@")));
    assert_eq!(lexer.next(), Some(TokenType::Alphanumeric("AZ")));
    assert_eq!(lexer.next(), Some(TokenType::EnterSquareBracket));
    assert_eq!(lexer.next(), Some(TokenType::Unknown("`")));
    assert_eq!(lexer.next(), Some(TokenType::Alphanumeric("az")));
    assert_eq!(lexer.next(), Some(TokenType::Unknown("{")));
    assert_eq!(lexer.next(), Some(TokenType::Alphanumeric("09")));
    assert_eq!(lexer.next(), Some(TokenType::Unknown(":")));
    assert_eq!(lexer.next(), None);
}
