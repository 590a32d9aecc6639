use vstd::prelude::*;

verus! {

/// The lexical category of a token.
#[derive(Clone, Copy, PartialEq, Eq, Debug, Structural)]
pub enum TokenType {
    // Single-character tokens.
    LeftParen,
    RightParen,
    LeftBrace,
    RightBrace,
    Comma,
    Dot,
    Minus,
    Plus,
    Semicolon,
    Slash,
    Star,
    // One or two character tokens.
    Bang,
    BangEqual,
    Equal,
    EqualEqual,
    Greater,
    GreaterEqual,
    Less,
    LessEqual,
    // Literals.
    Identifier,
    String,
    Number,
    // Keywords.
    And,
    Class,
    Else,
    False,
    Fun,
    For,
    If,
    Nil,
    Or,
    Print,
    Return,
    Super,
    This,
    True,
    Var,
    While,
    Eof,
    Error,
}

impl TokenType {
    /// Whether a token of this kind carries a decoded payload.
    pub open spec fn carries_literal(self) -> bool {
        self is Identifier || self is String || self is Number
    }

    /// The fixed spelling of this kind: the operator or keyword itself, the
    /// empty text for the three literal kinds, a NUL for the end of input.
    pub open spec fn text(self) -> Seq<char> {
        match self {
            TokenType::LeftParen => "("@,
            TokenType::RightParen => ")"@,
            TokenType::LeftBrace => "{"@,
            TokenType::RightBrace => "}"@,
            TokenType::Comma => ","@,
            TokenType::Dot => "."@,
            TokenType::Minus => "-"@,
            TokenType::Plus => "+"@,
            TokenType::Semicolon => ";"@,
            TokenType::Slash => "/"@,
            TokenType::Star => "*"@,
            TokenType::Bang => "!"@,
            TokenType::BangEqual => "!="@,
            TokenType::Equal => "="@,
            TokenType::EqualEqual => "=="@,
            TokenType::Greater => ">"@,
            TokenType::GreaterEqual => ">="@,
            TokenType::Less => "<"@,
            TokenType::LessEqual => "<="@,
            TokenType::Identifier => ""@,
            TokenType::String => ""@,
            TokenType::Number => ""@,
            TokenType::And => "and"@,
            TokenType::Class => "class"@,
            TokenType::Else => "else"@,
            TokenType::False => "false"@,
            TokenType::Fun => "fun"@,
            TokenType::For => "for"@,
            TokenType::If => "if"@,
            TokenType::Nil => "nil"@,
            TokenType::Or => "or"@,
            TokenType::Print => "print"@,
            TokenType::Return => "return"@,
            TokenType::Super => "super"@,
            TokenType::This => "this"@,
            TokenType::True => "true"@,
            TokenType::Var => "var"@,
            TokenType::While => "while"@,
            TokenType::Eof => "\0"@,
            TokenType::Error => "error"@,
        }
    }

    /// Renders the kind as its fixed spelling.
    pub fn to_text(&self) -> (out: String)
        ensures
            out@ == self.text(),
    {
        let spelling: &'static str = match self {
            TokenType::LeftParen => "(",
            TokenType::RightParen => ")",
            TokenType::LeftBrace => "{",
            TokenType::RightBrace => "}",
            TokenType::Comma => ",",
            TokenType::Dot => ".",
            TokenType::Minus => "-",
            TokenType::Plus => "+",
            TokenType::Semicolon => ";",
            TokenType::Slash => "/",
            TokenType::Star => "*",
            TokenType::Bang => "!",
            TokenType::BangEqual => "!=",
            TokenType::Equal => "=",
            TokenType::EqualEqual => "==",
            TokenType::Greater => ">",
            TokenType::GreaterEqual => ">=",
            TokenType::Less => "<",
            TokenType::LessEqual => "<=",
            TokenType::Identifier => "",
            TokenType::String => "",
            TokenType::Number => "",
            TokenType::And => "and",
            TokenType::Class => "class",
            TokenType::Else => "else",
            TokenType::False => "false",
            TokenType::Fun => "fun",
            TokenType::For => "for",
            TokenType::If => "if",
            TokenType::Nil => "nil",
            TokenType::Or => "or",
            TokenType::Print => "print",
            TokenType::Return => "return",
            TokenType::Super => "super",
            TokenType::This => "this",
            TokenType::True => "true",
            TokenType::Var => "var",
            TokenType::While => "while",
            TokenType::Eof => "\0",
            TokenType::Error => "error",
        };
        String::from_str(spelling)
    }
}

/// The decoded payload of a literal token.
///
/// A number keeps its decimal text exactly as it was written; turning that
/// text into a machine number is left to whoever evaluates it.
#[derive(PartialEq, Debug)]
pub enum Literal {
    String(String),
    Number(String),
    Identifier(String),
}

/// What a `Literal` stands for: its variant and its characters.
pub enum LiteralView {
    String(Seq<char>),
    Number(Seq<char>),
    Identifier(Seq<char>),
}

impl View for Literal {
    type V = LiteralView;

    open spec fn view(&self) -> LiteralView {
        match self {
            Literal::String(s) => LiteralView::String(s@),
            Literal::Number(s) => LiteralView::Number(s@),
            Literal::Identifier(s) => LiteralView::Identifier(s@),
        }
    }
}

impl Literal {
    /// The characters the payload holds, whatever its variant.
    pub open spec fn text(self) -> Seq<char> {
        match self {
            Literal::String(s) => s@,
            Literal::Number(s) => s@,
            Literal::Identifier(s) => s@,
        }
    }

    /// The kind of token that carries a payload of this variant.
    pub open spec fn kind(self) -> TokenType {
        match self {
            Literal::String(_) => TokenType::String,
            Literal::Number(_) => TokenType::Number,
            Literal::Identifier(_) => TokenType::Identifier,
        }
    }

    /// Renders the payload as the characters it holds.
    pub fn to_text(&self) -> (out: String)
        ensures
            out@ == self.text(),
    {
        match self {
            Literal::String(s) => s.clone(),
            Literal::Number(s) => s.clone(),
            Literal::Identifier(s) => s.clone(),
        }
    }
}

impl Clone for Literal {
    fn clone(&self) -> (copy: Self)
        ensures
            copy == *self,
    {
        match self {
            Literal::String(s) => Literal::String(s.clone()),
            Literal::Number(s) => Literal::Number(s.clone()),
            Literal::Identifier(s) => Literal::Identifier(s.clone()),
        }
    }
}

} // verus!
