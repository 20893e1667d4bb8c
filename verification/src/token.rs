use vstd::prelude::*;

use crate::diagnostic::{decimal, decimal_string};

verus! {

/// What a token is.
#[derive(Debug, PartialEq, Eq, Clone, Copy, Structural)]
pub enum TokenTag {
    LetKeyword,
    MutKeyword,
    ConstKeyword,
    Identifier,
    Integer,
    Str,
    EqualOp,
    SemicolonOp,
    PlusSign,
    MinusSign,
    StarSign,
    DivSign,
    LCurlyBracket,
    RCurlyBracket,
    EOF,
}

/// A token's text: the characters of a word, a number or a symbol, and for a
/// string literal its contents with the escapes resolved.
#[derive(Debug, PartialEq, Clone)]
pub struct Token {
    pub lexeme: String,
}

impl Token {
    pub fn new(lexeme: &str) -> (r: Token)
        ensures
            r.lexeme@ == lexeme@,
    {
        Token { lexeme: String::from_str(lexeme) }
    }

    /// A copy of the token.
    pub fn duplicate(&self) -> (r: Token)
        ensures
            r == *self,
    {
        Token { lexeme: self.lexeme.clone() }
    }
}

/// Where a token stands in the source: byte offsets in the UTF-8 text, and
/// 1-based columns (counted in bytes) and lines.
#[derive(Debug, PartialEq, Eq, Clone, Copy, Structural)]
pub struct TokenLocation {
    pub start_idx: usize,
    pub end_idx: usize,
    pub start_col: u16,
    pub end_col: u16,
    pub start_line: u16,
    pub end_line: u16,
}

/// The token stream: the tokens and their tags, side by side.
#[derive(Debug, PartialEq)]
pub struct Tokens {
    tokens: Vec<Token>,
    tags: Vec<TokenTag>,
}

impl Tokens {
    pub closed spec fn token_seq(&self) -> Seq<Token> {
        self.tokens@
    }

    pub closed spec fn tag_seq(&self) -> Seq<TokenTag> {
        self.tags@
    }

    /// The lexemes of the tokens, as character sequences.
    pub open spec fn lexemes(&self) -> Seq<Seq<char>> {
        self.token_seq().map_values(|t: Token| t.lexeme@)
    }

    /// Tokens and tags always come in pairs.
    #[verifier::type_invariant]
    closed spec fn pairs(&self) -> bool {
        self.tokens@.len() == self.tags@.len()
    }

    pub fn new() -> (r: Tokens)
        ensures
            r.token_seq() == Seq::<Token>::empty(),
            r.tag_seq() == Seq::<TokenTag>::empty(),
    {
        Tokens { tokens: Vec::new(), tags: Vec::new() }
    }

    pub fn push(&mut self, token: Token, tag: TokenTag)
        ensures
            final(self).token_seq() == old(self).token_seq().push(token),
            final(self).tag_seq() == old(self).tag_seq().push(tag),
    {
        proof {
            use_type_invariant(&*self);
        }
        let mut whole = Tokens::new();
        std::mem::swap(&mut whole, self);
        proof {
            use_type_invariant(&whole);
        }
        let Tokens { mut tokens, mut tags } = whole;
        tokens.push(token);
        tags.push(tag);
        *self = Tokens { tokens, tags };
    }

    /// The number of tokens (there are as many tags).
    pub fn len(&self) -> (r: usize)
        ensures
            r == self.tag_seq().len(),
            r == self.token_seq().len(),
    {
        proof {
            use_type_invariant(self);
        }
        self.tags.len()
    }


    pub fn get_token(&self, idx: usize) -> (r: Option<&Token>)
        ensures
            r == (if idx < self.token_seq().len() {
                Some(&self.token_seq()[idx as int])
            } else {
                None
            }),
    {
        if idx < self.tokens.len() {
            Some(&self.tokens[idx])
        } else {
            None
        }
    }

    pub fn get_kind(&self, idx: usize) -> (r: Option<&TokenTag>)
        ensures
            r == (if idx < self.tag_seq().len() {
                Some(&self.tag_seq()[idx as int])
            } else {
                None
            }),
    {
        if idx < self.tags.len() {
            Some(&self.tags[idx])
        } else {
            None
        }
    }
}

/// The name a tag is shown by.
pub open spec fn tag_name(t: TokenTag) -> Seq<char> {
    match t {
        TokenTag::LetKeyword => "Let"@,
        TokenTag::MutKeyword => "Mut"@,
        TokenTag::ConstKeyword => "Const"@,
        TokenTag::Identifier => "Identifier"@,
        TokenTag::Integer => "Integer"@,
        TokenTag::Str => "Str"@,
        TokenTag::EqualOp => "Equal"@,
        TokenTag::SemicolonOp => "Semicolon"@,
        TokenTag::PlusSign => "Add"@,
        TokenTag::MinusSign => "Sub"@,
        TokenTag::StarSign => "Mul"@,
        TokenTag::DivSign => "Div"@,
        TokenTag::LCurlyBracket => "LCurlyBracket"@,
        TokenTag::RCurlyBracket => "RCurlyBracket"@,
        TokenTag::EOF => "EOF"@,
    }
}

impl TokenTag {
    fn name(&self) -> (r: &'static str)
        ensures
            r@ == tag_name(*self),
    {
        match self {
            TokenTag::LetKeyword => "Let",
            TokenTag::MutKeyword => "Mut",
            TokenTag::ConstKeyword => "Const",
            TokenTag::Identifier => "Identifier",
            TokenTag::Integer => "Integer",
            TokenTag::Str => "Str",
            TokenTag::EqualOp => "Equal",
            TokenTag::SemicolonOp => "Semicolon",
            TokenTag::PlusSign => "Add",
            TokenTag::MinusSign => "Sub",
            TokenTag::StarSign => "Mul",
            TokenTag::DivSign => "Div",
            TokenTag::LCurlyBracket => "LCurlyBracket",
            TokenTag::RCurlyBracket => "RCurlyBracket",
            TokenTag::EOF => "EOF",
        }
    }

    /// The tag as text, such as ``Kind: `Let` ``.
    pub fn describe(&self) -> (r: String)
        ensures
            r@ == "Kind: `"@ + tag_name(*self) + "`"@,
    {
        let mut out = String::from_str("Kind: `");
        out.append(self.name());
        out.append("`");
        out
    }
}

/// The text of a location.
pub open spec fn location_text(l: TokenLocation) -> Seq<char> {
    "Location [idx: "@ + decimal(l.start_idx as nat) + "-"@ + decimal(l.end_idx as nat) + ", col: "@ + decimal(
        l.start_col as nat,
    ) + "-"@ + decimal(l.end_col as nat) + ", line: "@ + decimal(l.start_line as nat) + "-"@ + decimal(
        l.end_line as nat,
    ) + "]"@
}

impl TokenLocation {
    /// The location as text, such as `Location [idx: 0-3, col: 1-4, line: 1-1]`.
    pub fn describe(&self) -> (r: String)
        ensures
            r@ == location_text(*self),
    {
        let mut out = String::from_str("Location [idx: ");
        out.append(decimal_string(self.start_idx).as_str());
        out.append("-");
        out.append(decimal_string(self.end_idx).as_str());
        out.append(", col: ");
        out.append(decimal_string(self.start_col as usize).as_str());
        out.append("-");
        out.append(decimal_string(self.end_col as usize).as_str());
        out.append(", line: ");
        out.append(decimal_string(self.start_line as usize).as_str());
        out.append("-");
        out.append(decimal_string(self.end_line as usize).as_str());
        out.append("]");
        out
    }
}

} // verus!
