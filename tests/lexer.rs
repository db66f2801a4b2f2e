use brainfuck::lexer::{lex, Token};

#[test]
fn lex_maps_each_character() {
    assert_eq!(
        lex("+-><[].,a"),
        vec![
            Token::Increment,
            Token::Decrement,
            Token::Forward,
            Token::Backward,
            Token::LoopStart,
            Token::LoopEnd,
            Token::Output,
            Token::Input,
            Token::Comment
        ]
    );
}

#[test]
fn lex_one_token_per_code_point() {
    assert_eq!(lex("é+"), vec![Token::Comment, Token::Increment]);
    assert_eq!(lex(""), vec![]);
}
