//! The tagged value stored in the chain: a word of input text, or the mark
//! that a context was observed at the end of a line.

use vstd::prelude::*;

verus! {

/// One entry of an edge-set: a candidate continuation for a context.
pub enum Token {
    /// A whitespace-delimited word of input text.
    Word(String),
    /// No legitimate continuation was observed for the context.
    End,
}

/// The mathematical value of a `Token`: the word's characters, or the end mark.
pub enum TokenView {
    Word(Seq<char>),
    End,
}

impl View for Token {
    type V = TokenView;

    open spec fn view(&self) -> TokenView {
        match self {
            Token::Word(w) => TokenView::Word(w@),
            Token::End => TokenView::End,
        }
    }
}

impl Token {
    /// Whether the two tokens denote the same word, or both mark an end.
    pub fn same(&self, other: &Token) -> (r: bool)
        ensures
            r == (self@ == other@),
    {
        match (self, other) {
            (Token::Word(a), Token::Word(b)) => a.eq(b),
            (Token::End, Token::End) => true,
            _ => false,
        }
    }
}

impl Clone for Token {
    fn clone(&self) -> (r: Self)
        ensures
            r@ == self@,
    {
        match self {
            Token::Word(w) => Token::Word(w.clone()),
            Token::End => Token::End,
        }
    }
}

} // verus!
