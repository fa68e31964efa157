use crate::error::ParseError;
use crate::text::{chars_of, spells};
use vstd::prelude::*;

verus! {

/// What kind of token this is, without the text that a literal carries.
#[derive(Clone, Copy, Debug, PartialEq, Eq, Structural, Hash)]
pub enum TokenTypeDiscriminants {
    LeftParen,
    RightParen,
    LeftBrace,
    RightBrace,
    Comma,
    Dot,
    Minus,
    Plus,
    Semicolon,
    Slash,
    Star,
    Bang,
    BangEqual,
    Equal,
    EqualEqual,
    Greater,
    GreaterEqual,
    Less,
    LessEqual,
    Identifier,
    String,
    Number,
    And,
    Class,
    Else,
    False,
    Fun,
    For,
    If,
    Nil,
    Or,
    Print,
    Return,
    Super,
    This,
    True,
    Var,
    While,
    Eof,
}

/// A token kind together with the text of an identifier, a string literal or a
/// number literal. A number carries its digits as written: `12.50` stays `12.50`.
#[derive(Clone, Debug, PartialEq)]
pub enum TokenType {
    LeftParen,
    RightParen,
    LeftBrace,
    RightBrace,
    Comma,
    Dot,
    Minus,
    Plus,
    Semicolon,
    Slash,
    Star,
    Bang,
    BangEqual,
    Equal,
    EqualEqual,
    Greater,
    GreaterEqual,
    Less,
    LessEqual,
    Identifier(String),
    String(String),
    Number(String),
    And,
    Class,
    Else,
    False,
    Fun,
    For,
    If,
    Nil,
    Or,
    Print,
    Return,
    Super,
    This,
    True,
    Var,
    While,
    Eof,
}

/// The mathematical content of a [`TokenType`]: its kind and the text it carries
/// (empty for every kind but identifier, string and number).
pub struct TokenTypeView {
    pub kind: TokenTypeDiscriminants,
    pub text: Seq<char>,
}

/// The kind of a token type.
pub open spec fn kind_of(t: TokenType) -> TokenTypeDiscriminants {
    match t {
        TokenType::LeftParen => TokenTypeDiscriminants::LeftParen,
        TokenType::RightParen => TokenTypeDiscriminants::RightParen,
        TokenType::LeftBrace => TokenTypeDiscriminants::LeftBrace,
        TokenType::RightBrace => TokenTypeDiscriminants::RightBrace,
        TokenType::Comma => TokenTypeDiscriminants::Comma,
        TokenType::Dot => TokenTypeDiscriminants::Dot,
        TokenType::Minus => TokenTypeDiscriminants::Minus,
        TokenType::Plus => TokenTypeDiscriminants::Plus,
        TokenType::Semicolon => TokenTypeDiscriminants::Semicolon,
        TokenType::Slash => TokenTypeDiscriminants::Slash,
        TokenType::Star => TokenTypeDiscriminants::Star,
        TokenType::Bang => TokenTypeDiscriminants::Bang,
        TokenType::BangEqual => TokenTypeDiscriminants::BangEqual,
        TokenType::Equal => TokenTypeDiscriminants::Equal,
        TokenType::EqualEqual => TokenTypeDiscriminants::EqualEqual,
        TokenType::Greater => TokenTypeDiscriminants::Greater,
        TokenType::GreaterEqual => TokenTypeDiscriminants::GreaterEqual,
        TokenType::Less => TokenTypeDiscriminants::Less,
        TokenType::LessEqual => TokenTypeDiscriminants::LessEqual,
        TokenType::And => TokenTypeDiscriminants::And,
        TokenType::Class => TokenTypeDiscriminants::Class,
        TokenType::Else => TokenTypeDiscriminants::Else,
        TokenType::False => TokenTypeDiscriminants::False,
        TokenType::Fun => TokenTypeDiscriminants::Fun,
        TokenType::For => TokenTypeDiscriminants::For,
        TokenType::If => TokenTypeDiscriminants::If,
        TokenType::Nil => TokenTypeDiscriminants::Nil,
        TokenType::Or => TokenTypeDiscriminants::Or,
        TokenType::Print => TokenTypeDiscriminants::Print,
        TokenType::Return => TokenTypeDiscriminants::Return,
        TokenType::Super => TokenTypeDiscriminants::Super,
        TokenType::This => TokenTypeDiscriminants::This,
        TokenType::True => TokenTypeDiscriminants::True,
        TokenType::Var => TokenTypeDiscriminants::Var,
        TokenType::While => TokenTypeDiscriminants::While,
        TokenType::Eof => TokenTypeDiscriminants::Eof,
        TokenType::Identifier(_) => TokenTypeDiscriminants::Identifier,
        TokenType::String(_) => TokenTypeDiscriminants::String,
        TokenType::Number(_) => TokenTypeDiscriminants::Number,
    }
}

/// The text that a token type carries.
pub open spec fn text_of(t: TokenType) -> Seq<char> {
    match t {
        TokenType::Identifier(s) => s@,
        TokenType::String(s) => s@,
        TokenType::Number(s) => s@,
        _ => Seq::empty(),
    }
}

impl View for TokenType {
    type V = TokenTypeView;

    open spec fn view(&self) -> TokenTypeView {
        TokenTypeView { kind: kind_of(*self), text: text_of(*self) }
    }
}

/// The reserved word that `text` spells, if it spells one.
pub open spec fn keyword(text: Seq<char>) -> Option<TokenTypeDiscriminants> {
    if text == "and"@ {
        Some(TokenTypeDiscriminants::And)
    } else if text == "class"@ {
        Some(TokenTypeDiscriminants::Class)
    } else if text == "else"@ {
        Some(TokenTypeDiscriminants::Else)
    } else if text == "false"@ {
        Some(TokenTypeDiscriminants::False)
    } else if text == "fun"@ {
        Some(TokenTypeDiscriminants::Fun)
    } else if text == "for"@ {
        Some(TokenTypeDiscriminants::For)
    } else if text == "if"@ {
        Some(TokenTypeDiscriminants::If)
    } else if text == "nil"@ {
        Some(TokenTypeDiscriminants::Nil)
    } else if text == "or"@ {
        Some(TokenTypeDiscriminants::Or)
    } else if text == "print"@ {
        Some(TokenTypeDiscriminants::Print)
    } else if text == "return"@ {
        Some(TokenTypeDiscriminants::Return)
    } else if text == "super"@ {
        Some(TokenTypeDiscriminants::Super)
    } else if text == "this"@ {
        Some(TokenTypeDiscriminants::This)
    } else if text == "true"@ {
        Some(TokenTypeDiscriminants::True)
    } else if text == "var"@ {
        Some(TokenTypeDiscriminants::Var)
    } else if text == "while"@ {
        Some(TokenTypeDiscriminants::While)
    } else {
        None
    }
}

/// How a kind is written: the spelling of punctuation and of reserved words, and
/// a describing word for the kinds that carry text and for the end of input.
pub open spec fn symbol(kind: TokenTypeDiscriminants) -> Seq<char> {
    match kind {
        TokenTypeDiscriminants::LeftParen => "("@,
        TokenTypeDiscriminants::RightParen => ")"@,
        TokenTypeDiscriminants::LeftBrace => "{"@,
        TokenTypeDiscriminants::RightBrace => "}"@,
        TokenTypeDiscriminants::Comma => ","@,
        TokenTypeDiscriminants::Dot => "."@,
        TokenTypeDiscriminants::Minus => "-"@,
        TokenTypeDiscriminants::Plus => "+"@,
        TokenTypeDiscriminants::Semicolon => ";"@,
        TokenTypeDiscriminants::Slash => "/"@,
        TokenTypeDiscriminants::Star => "*"@,
        TokenTypeDiscriminants::Bang => "!"@,
        TokenTypeDiscriminants::BangEqual => "!="@,
        TokenTypeDiscriminants::Equal => "="@,
        TokenTypeDiscriminants::EqualEqual => "=="@,
        TokenTypeDiscriminants::Greater => ">"@,
        TokenTypeDiscriminants::GreaterEqual => ">="@,
        TokenTypeDiscriminants::Less => "<"@,
        TokenTypeDiscriminants::LessEqual => "<="@,
        TokenTypeDiscriminants::Identifier => "identifier"@,
        TokenTypeDiscriminants::String => "string"@,
        TokenTypeDiscriminants::Number => "number"@,
        TokenTypeDiscriminants::And => "and"@,
        TokenTypeDiscriminants::Class => "class"@,
        TokenTypeDiscriminants::Else => "else"@,
        TokenTypeDiscriminants::False => "false"@,
        TokenTypeDiscriminants::Fun => "fun"@,
        TokenTypeDiscriminants::For => "for"@,
        TokenTypeDiscriminants::If => "if"@,
        TokenTypeDiscriminants::Nil => "nil"@,
        TokenTypeDiscriminants::Or => "or"@,
        TokenTypeDiscriminants::Print => "print"@,
        TokenTypeDiscriminants::Return => "return"@,
        TokenTypeDiscriminants::Super => "super"@,
        TokenTypeDiscriminants::This => "this"@,
        TokenTypeDiscriminants::True => "true"@,
        TokenTypeDiscriminants::Var => "var"@,
        TokenTypeDiscriminants::While => "while"@,
        TokenTypeDiscriminants::Eof => "EOF"@,
    }
}

impl TokenTypeDiscriminants {
    /// The spelling that [`symbol`] gives, as a string slice.
    pub fn symbol(self) -> (r: &'static str)
        ensures
            r@ == symbol(self),
    {
        match self {
            TokenTypeDiscriminants::LeftParen => "(",
            TokenTypeDiscriminants::RightParen => ")",
            TokenTypeDiscriminants::LeftBrace => "{",
            TokenTypeDiscriminants::RightBrace => "}",
            TokenTypeDiscriminants::Comma => ",",
            TokenTypeDiscriminants::Dot => ".",
            TokenTypeDiscriminants::Minus => "-",
            TokenTypeDiscriminants::Plus => "+",
            TokenTypeDiscriminants::Semicolon => ";",
            TokenTypeDiscriminants::Slash => "/",
            TokenTypeDiscriminants::Star => "*",
            TokenTypeDiscriminants::Bang => "!",
            TokenTypeDiscriminants::BangEqual => "!=",
            TokenTypeDiscriminants::Equal => "=",
            TokenTypeDiscriminants::EqualEqual => "==",
            TokenTypeDiscriminants::Greater => ">",
            TokenTypeDiscriminants::GreaterEqual => ">=",
            TokenTypeDiscriminants::Less => "<",
            TokenTypeDiscriminants::LessEqual => "<=",
            TokenTypeDiscriminants::Identifier => "identifier",
            TokenTypeDiscriminants::String => "string",
            TokenTypeDiscriminants::Number => "number",
            TokenTypeDiscriminants::And => "and",
            TokenTypeDiscriminants::Class => "class",
            TokenTypeDiscriminants::Else => "else",
            TokenTypeDiscriminants::False => "false",
            TokenTypeDiscriminants::Fun => "fun",
            TokenTypeDiscriminants::For => "for",
            TokenTypeDiscriminants::If => "if",
            TokenTypeDiscriminants::Nil => "nil",
            TokenTypeDiscriminants::Or => "or",
            TokenTypeDiscriminants::Print => "print",
            TokenTypeDiscriminants::Return => "return",
            TokenTypeDiscriminants::Super => "super",
            TokenTypeDiscriminants::This => "this",
            TokenTypeDiscriminants::True => "true",
            TokenTypeDiscriminants::Var => "var",
            TokenTypeDiscriminants::While => "while",
            TokenTypeDiscriminants::Eof => "EOF",
        }
    }

    /// Whether a token of this kind begins a statement; error recovery stops in
    /// front of such a token.
    pub open spec fn begins_statement(self) -> bool {
        self == TokenTypeDiscriminants::Class || self == TokenTypeDiscriminants::Fun || self
            == TokenTypeDiscriminants::Var || self == TokenTypeDiscriminants::For || self
            == TokenTypeDiscriminants::If || self == TokenTypeDiscriminants::While || self
            == TokenTypeDiscriminants::Print || self == TokenTypeDiscriminants::Return
    }
}

impl TokenType {
    /// The kind of this token type.
    pub fn kind(&self) -> (k: TokenTypeDiscriminants)
        ensures
            k == self@.kind,
    {
        match self {
            TokenType::LeftParen => TokenTypeDiscriminants::LeftParen,
            TokenType::RightParen => TokenTypeDiscriminants::RightParen,
            TokenType::LeftBrace => TokenTypeDiscriminants::LeftBrace,
            TokenType::RightBrace => TokenTypeDiscriminants::RightBrace,
            TokenType::Comma => TokenTypeDiscriminants::Comma,
            TokenType::Dot => TokenTypeDiscriminants::Dot,
            TokenType::Minus => TokenTypeDiscriminants::Minus,
            TokenType::Plus => TokenTypeDiscriminants::Plus,
            TokenType::Semicolon => TokenTypeDiscriminants::Semicolon,
            TokenType::Slash => TokenTypeDiscriminants::Slash,
            TokenType::Star => TokenTypeDiscriminants::Star,
            TokenType::Bang => TokenTypeDiscriminants::Bang,
            TokenType::BangEqual => TokenTypeDiscriminants::BangEqual,
            TokenType::Equal => TokenTypeDiscriminants::Equal,
            TokenType::EqualEqual => TokenTypeDiscriminants::EqualEqual,
            TokenType::Greater => TokenTypeDiscriminants::Greater,
            TokenType::GreaterEqual => TokenTypeDiscriminants::GreaterEqual,
            TokenType::Less => TokenTypeDiscriminants::Less,
            TokenType::LessEqual => TokenTypeDiscriminants::LessEqual,
            TokenType::And => TokenTypeDiscriminants::And,
            TokenType::Class => TokenTypeDiscriminants::Class,
            TokenType::Else => TokenTypeDiscriminants::Else,
            TokenType::False => TokenTypeDiscriminants::False,
            TokenType::Fun => TokenTypeDiscriminants::Fun,
            TokenType::For => TokenTypeDiscriminants::For,
            TokenType::If => TokenTypeDiscriminants::If,
            TokenType::Nil => TokenTypeDiscriminants::Nil,
            TokenType::Or => TokenTypeDiscriminants::Or,
            TokenType::Print => TokenTypeDiscriminants::Print,
            TokenType::Return => TokenTypeDiscriminants::Return,
            TokenType::Super => TokenTypeDiscriminants::Super,
            TokenType::This => TokenTypeDiscriminants::This,
            TokenType::True => TokenTypeDiscriminants::True,
            TokenType::Var => TokenTypeDiscriminants::Var,
            TokenType::While => TokenTypeDiscriminants::While,
            TokenType::Eof => TokenTypeDiscriminants::Eof,
            TokenType::Identifier(_) => TokenTypeDiscriminants::Identifier,
            TokenType::String(_) => TokenTypeDiscriminants::String,
            TokenType::Number(_) => TokenTypeDiscriminants::Number,
        }
    }

    /// The text that this token type carries; empty where it carries none.
    pub fn text(&self) -> (r: String)
        ensures
            r@ == self@.text,
    {
        match self {
            TokenType::Identifier(s) => s.clone(),
            TokenType::String(s) => s.clone(),
            TokenType::Number(s) => s.clone(),
            _ => String::new(),
        }
    }

    /// A copy of this token type.
    pub fn duplicate(&self) -> (r: TokenType)
        ensures
            r == *self,
    {
        match self {
            TokenType::LeftParen => TokenType::LeftParen,
            TokenType::RightParen => TokenType::RightParen,
            TokenType::LeftBrace => TokenType::LeftBrace,
            TokenType::RightBrace => TokenType::RightBrace,
            TokenType::Comma => TokenType::Comma,
            TokenType::Dot => TokenType::Dot,
            TokenType::Minus => TokenType::Minus,
            TokenType::Plus => TokenType::Plus,
            TokenType::Semicolon => TokenType::Semicolon,
            TokenType::Slash => TokenType::Slash,
            TokenType::Star => TokenType::Star,
            TokenType::Bang => TokenType::Bang,
            TokenType::BangEqual => TokenType::BangEqual,
            TokenType::Equal => TokenType::Equal,
            TokenType::EqualEqual => TokenType::EqualEqual,
            TokenType::Greater => TokenType::Greater,
            TokenType::GreaterEqual => TokenType::GreaterEqual,
            TokenType::Less => TokenType::Less,
            TokenType::LessEqual => TokenType::LessEqual,
            TokenType::And => TokenType::And,
            TokenType::Class => TokenType::Class,
            TokenType::Else => TokenType::Else,
            TokenType::False => TokenType::False,
            TokenType::Fun => TokenType::Fun,
            TokenType::For => TokenType::For,
            TokenType::If => TokenType::If,
            TokenType::Nil => TokenType::Nil,
            TokenType::Or => TokenType::Or,
            TokenType::Print => TokenType::Print,
            TokenType::Return => TokenType::Return,
            TokenType::Super => TokenType::Super,
            TokenType::This => TokenType::This,
            TokenType::True => TokenType::True,
            TokenType::Var => TokenType::Var,
            TokenType::While => TokenType::While,
            TokenType::Eof => TokenType::Eof,
            TokenType::Identifier(s) => TokenType::Identifier(s.clone()),
            TokenType::String(s) => TokenType::String(s.clone()),
            TokenType::Number(s) => TokenType::Number(s.clone()),
        }
    }

    /// The token type of a reserved word. Any other text is refused with
    /// `UnknownTokenType`.
    pub fn from_str(text: &str) -> (r: Result<TokenType, ParseError>)
        ensures
            match keyword(text@) {
                Some(k) => r is Ok && r->Ok_0@.kind == k && r->Ok_0@.text == Seq::<char>::empty(),
                None => r == Err::<TokenType, ParseError>(ParseError::UnknownTokenType),
            },
    {
        let chars = chars_of(text);
        assert(chars@.subrange(0, chars@.len() as int) =~= text@);
        match keyword_in(&chars, 0, chars.len()) {
            Some(t) => Ok(t),
            None => Err(ParseError::UnknownTokenType),
        }
    }
}

/// The token type of the reserved word that `chars[from..to]` spells, if any.
pub fn keyword_in(chars: &Vec<char>, from: usize, to: usize) -> (r: Option<TokenType>)
    requires
        from <= to <= chars.len(),
    ensures
        match keyword(chars@.subrange(from as int, to as int)) {
            Some(k) => r is Some && r->Some_0@.kind == k && r->Some_0@.text == Seq::<char>::empty(),
            None => r is None,
        },
{
    if spells(chars, from, to, "and") {
        Some(TokenType::And)
    } else if spells(chars, from, to, "class") {
        Some(TokenType::Class)
    } else if spells(chars, from, to, "else") {
        Some(TokenType::Else)
    } else if spells(chars, from, to, "false") {
        Some(TokenType::False)
    } else if spells(chars, from, to, "fun") {
        Some(TokenType::Fun)
    } else if spells(chars, from, to, "for") {
        Some(TokenType::For)
    } else if spells(chars, from, to, "if") {
        Some(TokenType::If)
    } else if spells(chars, from, to, "nil") {
        Some(TokenType::Nil)
    } else if spells(chars, from, to, "or") {
        Some(TokenType::Or)
    } else if spells(chars, from, to, "print") {
        Some(TokenType::Print)
    } else if spells(chars, from, to, "return") {
        Some(TokenType::Return)
    } else if spells(chars, from, to, "super") {
        Some(TokenType::Super)
    } else if spells(chars, from, to, "this") {
        Some(TokenType::This)
    } else if spells(chars, from, to, "true") {
        Some(TokenType::True)
    } else if spells(chars, from, to, "var") {
        Some(TokenType::Var)
    } else if spells(chars, from, to, "while") {
        Some(TokenType::While)
    } else {
        None
    }
}

/// A lexeme of the source: its type, the text it was read from where the type
/// carries text, and the line it stands on (counted from 1).
#[derive(Clone, Debug, PartialEq)]
pub struct Token {
    pub token_type: TokenType,
    pub lexeme: Option<String>,
    pub line: usize,
}

/// The mathematical content of a [`Token`].
pub struct TokenView {
    pub kind: TokenTypeDiscriminants,
    pub text: Seq<char>,
    pub lexeme: Option<Seq<char>>,
    pub line: int,
}

impl View for Token {
    type V = TokenView;

    open spec fn view(&self) -> TokenView {
        TokenView {
            kind: self.token_type@.kind,
            text: self.token_type@.text,
            lexeme: match self.lexeme {
                Some(s) => Some(s@),
                None => None,
            },
            line: self.line as int,
        }
    }
}

/// The views of a sequence of tokens.
pub open spec fn token_views(tokens: Seq<Token>) -> Seq<TokenView> {
    tokens.map_values(|t: Token| t@)
}

impl TokenView {
    /// How the token is shown: its lexeme where it has one, else the spelling of
    /// its kind.
    pub open spec fn shown(self) -> Seq<char> {
        match self.lexeme {
            Some(s) => s,
            None => symbol(self.kind),
        }
    }
}

impl Token {
    pub fn new(token_type: TokenType, lexeme: Option<String>, line: usize) -> (r: Token)
        ensures
            r.token_type == token_type,
            r.lexeme == lexeme,
            r.line == line,
    {
        Token { token_type, lexeme, line }
    }

    /// A copy of this token.
    pub fn duplicate(&self) -> (r: Token)
        ensures
            r == *self,
    {
        let lexeme = match &self.lexeme {
            Some(s) => Some(s.clone()),
            None => None,
        };
        Token { token_type: self.token_type.duplicate(), lexeme, line: self.line }
    }

    /// The kind of this token.
    pub fn kind(&self) -> (k: TokenTypeDiscriminants)
        ensures
            k == self@.kind,
    {
        self.token_type.kind()
    }

    /// The token as text: its lexeme where it has one, else the spelling of its
    /// kind.
    pub fn to_string(&self) -> (r: String)
        ensures
            r@ == self@.shown(),
    {
        match &self.lexeme {
            Some(s) => s.clone(),
            None => self.token_type.kind().symbol().to_owned(),
        }
    }
}

/// Copies of the tokens of `tokens`, in order.
pub fn duplicate_tokens(tokens: &Vec<Token>) -> (r: Vec<Token>)
    ensures
        r@ == tokens@,
{
    let mut out: Vec<Token> = Vec::new();
    let mut i: usize = 0;
    while i < tokens.len()
        invariant
            i <= tokens.len(),
            out@ == tokens@.subrange(0, i as int),
        decreases tokens.len() - i,
    {
        out.push(tokens[i].duplicate());
        assert(out@ =~= tokens@.subrange(0, i + 1));
        i += 1;
    }
    assert(out@ =~= tokens@);
    out
}

} // verus!
