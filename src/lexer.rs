use vstd::prelude::*;

verus! {

/// One source character, classified.
#[derive(Debug, Clone, Copy, PartialEq, Eq, Structural)]
pub enum Token {
    Increment,
    Decrement,
    Forward,
    Backward,
    LoopStart,
    LoopEnd,
    Output,
    Input,
    Comment,
}

/// The token that a source character stands for.
pub open spec fn token_of(c: char) -> Token {
    if c == '+' {
        Token::Increment
    } else if c == '-' {
        Token::Decrement
    } else if c == '>' {
        Token::Forward
    } else if c == '<' {
        Token::Backward
    } else if c == '[' {
        Token::LoopStart
    } else if c == ']' {
        Token::LoopEnd
    } else if c == '.' {
        Token::Output
    } else if c == ',' {
        Token::Input
    } else {
        Token::Comment
    }
}

/// The tokens of a source text: one per character, in order.
pub open spec fn lex_spec(s: Seq<char>) -> Seq<Token> {
    s.map_values(|c: char| token_of(c))
}

fn classify(c: char) -> (t: Token)
    ensures
        t == token_of(c),
{
    match c {
        '+' => Token::Increment,
        '-' => Token::Decrement,
        '>' => Token::Forward,
        '<' => Token::Backward,
        '[' => Token::LoopStart,
        ']' => Token::LoopEnd,
        '.' => Token::Output,
        ',' => Token::Input,
        _ => Token::Comment,
    }
}

/// Splits source text into tokens, one per character; characters other than the
/// eight commands become `Comment`.
pub fn lex(input: &str) -> (tokens: Vec<Token>)
    ensures
        tokens@ == lex_spec(input@),
{
    let mut tokens: Vec<Token> = Vec::new();
    for c in it: input.chars()
        invariant
            it.seq() == input@,
            tokens@ == lex_spec(it.seq().subrange(0, it.index() as int)),
    {
        proof {
            assert(it.seq().subrange(0, it.index() + 1) == it.seq().subrange(0, it.index() as int).push(c));
        }
        tokens.push(classify(c));
    }
    proof {
        assert(input@.subrange(0, input@.len() as int) == input@);
    }
    tokens
}

} // verus!
