//! The heap list container that a tagged word can own.
use vstd::prelude::*;
use crate::reader::{Token, TokenModel, tokens_model};

verus! {

/// An exclusively owned sequence of tokens.
#[derive(Debug)]
pub struct List {
    tokens: Vec<Token>,
}

impl View for List {
    type V = Seq<TokenModel>;

    closed spec fn view(&self) -> Seq<TokenModel> {
        tokens_model(self.tokens@)
    }
}

impl List {
    pub fn new(tokens: Vec<Token>) -> (r: List)
        ensures
            r@ == tokens_model(tokens@),
    {
        List { tokens }
    }

    /// The tokens, in order.
    pub fn tokens(&self) -> (r: &Vec<Token>)
        ensures
            tokens_model(r@) == self@,
    {
        &self.tokens
    }

    /// Gives up the container, handing back its tokens.
    pub fn into_tokens(self) -> (r: Vec<Token>)
        ensures
            tokens_model(r@) == self@,
    {
        self.tokens
    }
}

} // verus!
