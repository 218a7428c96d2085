use vstd::prelude::*;

verus! {

/// The closed set of lexical categories.
#[derive(Clone, Copy, Debug, PartialEq, Eq, Structural)]
pub enum TokenType {
    // Single-character punctuation and operators.
    LeftParen,
    RightParen,
    LeftBrace,
    RightBrace,
    Comma,
    Dot,
    Minus,
    Plus,
    Semicolon,
    Slash,
    Star,
    // One- or two-character operators.
    Bang,
    BangEqual,
    Equal,
    EqualEqual,
    Greater,
    GreaterEqual,
    Less,
    LessEqual,
    // Literals.
    Identifier,
    String,
    Number,
    // Reserved words.
    And,
    Class,
    Else,
    False,
    Fun,
    For,
    If,
    Nil,
    Or,
    Print,
    Return,
    Super,
    This,
    True,
    Var,
    While,
    EOF,
}

/// The decoded payload of a literal token.
///
/// A number is carried as the decimal text it was written with (digits, and
/// optionally a dot followed by more digits); its value is the decimal number
/// that text spells.
#[derive(Clone, Debug)]
pub enum Literal {
    Str(String),
    Number(String),
}

/// Mathematical model of a literal payload.
pub ghost enum LiteralModel {
    Str(Seq<char>),
    Number(Seq<char>),
}

impl View for Literal {
    type V = LiteralModel;

    open spec fn view(&self) -> LiteralModel {
        match self {
            Literal::Str(s) => LiteralModel::Str(s@),
            Literal::Number(s) => LiteralModel::Number(s@),
        }
    }
}

/// One recognized lexical unit.
#[derive(Clone, Debug)]
pub struct Token {
    pub kind: TokenType,
    pub lexeme: String,
    pub literal: Option<Literal>,
}

/// Mathematical model of a token.
pub ghost struct TokenModel {
    pub kind: TokenType,
    pub lexeme: Seq<char>,
    pub literal: Option<LiteralModel>,
}

pub open spec fn literal_view(l: Option<Literal>) -> Option<LiteralModel> {
    match l {
        Some(x) => Some(x@),
        None => None,
    }
}

impl View for Token {
    type V = TokenModel;

    open spec fn view(&self) -> TokenModel {
        TokenModel { kind: self.kind, lexeme: self.lexeme@, literal: literal_view(self.literal) }
    }
}

/// The models of a sequence of tokens.
pub open spec fn tokens_view(ts: Seq<Token>) -> Seq<TokenModel> {
    ts.map_values(|t: Token| t@)
}

impl Token {
    pub fn new(kind: TokenType, lexeme: String, literal: Option<Literal>) -> (r: Token)
        ensures
            r.kind == kind,
            r.lexeme@ == lexeme@,
            r.literal == literal,
    {
        Token { kind, lexeme, literal }
    }
}

} // verus!
