//! The token alphabet of the lexer and the shape of a single token.
use vstd::prelude::*;

verus! {

/// The kind of a token. The lexer dispatches on the kind of the most recently
/// emitted token, so this enum doubles as the lexer's state alphabet.
/// `TokenNone` is the synthetic statement separator that returns the machine
/// to its ground state after a `;`.
#[derive(Clone, Copy, Debug, PartialEq, Eq, Structural)]
pub enum TokenType {
    TokenNone,
    TokenScopeStart,
    TokenScopeEnd,
    TokenIdentifier,
    TokenVarName,
    TokenVarOptionKey,
    TokenVarOptionValue,
    TokenVarOptionSep,
    TokenFunStart,
    TokenFunName,
    TokenFunArgKey,
    TokenFunArgValue,
    TokenFunCall,
    TokenFunCallArg,
}

/// One token: its kind and its raw lexeme, already stripped of the delimiter
/// punctuation that triggered its emission.
#[derive(Debug)]
pub struct Token {
    pub token_type: TokenType,
    pub value: Vec<char>,
}

/// The mathematical shape of a token: the lexeme as a sequence of characters.
pub struct TokenM {
    pub token_type: TokenType,
    pub value: Seq<char>,
}

impl View for Token {
    type V = TokenM;

    open spec fn view(&self) -> TokenM {
        TokenM { token_type: self.token_type, value: self.value@ }
    }
}

/// Views of a whole token stream.
pub open spec fn token_views(toks: Seq<Token>) -> Seq<TokenM> {
    toks.map_values(|t: Token| t@)
}

/// Whether the stream is non-empty and its last token has the given kind.
/// This is the single predicate the lexer's state machine is keyed on.
pub fn compare_token_type(tokens: &Vec<Token>, token_type: TokenType) -> (r: bool)
    ensures
        r == (tokens@.len() > 0 && tokens@.last()@.token_type == token_type),
{
    if tokens.len() == 0 {
        return false;
    }
    tokens[tokens.len() - 1].token_type == token_type
}

} // verus!
